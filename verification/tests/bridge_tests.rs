use robyn::bridge::{ChainRun, Outcome};
use robyn::router::{MiddlewareScope, Router};
use robyn::types::{
    HandlerError, HandlerKind, HttpMethod, MiddlewarePhase, ResponseContext,
};

fn plain_response(status: u16, body: &[u8]) -> ResponseContext {
    ResponseContext { status, headers: Vec::new(), body: body.to_vec(), terminal: false }
}

#[test]
fn middleware_order_observed() {
    let mut r = Router::new();
    r.add_route(HttpMethod::Get, b"/p", 30, HandlerKind::Sync).unwrap();
    r.add_middleware(MiddlewarePhase::Before, MiddlewareScope::Global, 10).unwrap();
    r.add_middleware(
        MiddlewarePhase::Before,
        MiddlewareScope::Route(HttpMethod::Get, b"/p".to_vec()),
        20,
    )
    .unwrap();
    r.add_middleware(
        MiddlewarePhase::After,
        MiddlewareScope::Route(HttpMethod::Get, b"/p".to_vec()),
        40,
    )
    .unwrap();
    r.add_middleware(MiddlewarePhase::After, MiddlewareScope::Global, 50).unwrap();
    let res = r.resolve(HttpMethod::Get, b"/p").unwrap();
    let mut run = ChainRun::new(res.before, res.handler, res.after);
    assert_eq!(run.next_stage(), Some(10));
    run.apply(Outcome::Pass);
    assert_eq!(run.next_stage(), Some(20));
    run.apply(Outcome::Pass);
    assert_eq!(run.next_stage(), Some(30));
    run.apply(Outcome::Respond(plain_response(200, b"ok")));
    assert_eq!(run.next_stage(), Some(40));
    run.apply(Outcome::Pass);
    assert_eq!(run.next_stage(), Some(50));
    run.apply(Outcome::Pass);
    assert!(run.is_done());
    assert_eq!(run.executed, vec![10, 20, 30, 40, 50]);
    let resp = run.response.unwrap();
    assert_eq!(resp.status, 200);
    assert_eq!(resp.body, b"ok".to_vec());
}

#[test]
fn short_circuit_skips_handler_not_after() {
    let before = vec![1, 2];
    let after = vec![4];
    let mut run = ChainRun::new(before, 3, after);
    run.apply(Outcome::Pass);
    run.apply(Outcome::Respond(plain_response(403, b"denied")));
    assert_eq!(run.next_stage(), Some(4));
    run.apply(Outcome::Pass);
    assert!(run.is_done());
    assert_eq!(run.executed, vec![1, 2, 4]);
    let resp = run.response.unwrap();
    assert_eq!(resp.status, 403);
    assert_eq!(resp.body, b"denied".to_vec());
}

#[test]
fn terminal_short_circuit_skips_everything() {
    let mut run = ChainRun::new(vec![1, 2], 3, vec![4]);
    let mut resp = plain_response(400, b"bad");
    resp.terminal = true;
    run.apply(Outcome::Respond(resp));
    assert!(run.is_done());
    assert_eq!(run.executed, vec![1]);
    assert_eq!(run.response.as_ref().unwrap().status, 400);
}

#[test]
fn handler_error_yields_server_error() {
    let mut run = ChainRun::new(vec![], 7, vec![9]);
    run.apply(Outcome::Fail(HandlerError { message: b"boom".to_vec(), status_override: None }));
    assert_eq!(run.next_stage(), Some(9));
    run.apply(Outcome::Pass);
    assert!(run.is_done());
    let resp = run.response.unwrap();
    assert_eq!(resp.status, 500);
    assert_eq!(resp.body, b"boom".to_vec());
}

#[test]
fn error_status_override_is_kept() {
    let mut run = ChainRun::new(vec![], 7, vec![]);
    run.apply(Outcome::Fail(HandlerError {
        message: b"later".to_vec(),
        status_override: Some(503),
    }));
    assert!(run.is_done());
    assert_eq!(run.response.unwrap().status, 503);
}

#[test]
fn before_error_skips_handler_keeps_after() {
    let mut run = ChainRun::new(vec![1, 2], 3, vec![4]);
    run.apply(Outcome::Fail(HandlerError { message: b"no".to_vec(), status_override: None }));
    assert_eq!(run.next_stage(), Some(4));
    run.apply(Outcome::Pass);
    assert!(run.is_done());
    assert_eq!(run.executed, vec![1, 4]);
    assert_eq!(run.response.unwrap().status, 500);
}

#[test]
fn handler_without_response_yields_server_error() {
    let mut run = ChainRun::new(vec![], 7, vec![]);
    run.apply(Outcome::Pass);
    assert!(run.is_done());
    assert_eq!(run.response.unwrap().status, 500);
}

#[test]
fn after_middleware_can_replace_response() {
    let mut run = ChainRun::new(vec![], 1, vec![2]);
    run.apply(Outcome::Respond(plain_response(200, b"inner")));
    run.apply(Outcome::Respond(plain_response(201, b"wrapped")));
    assert!(run.is_done());
    let resp = run.response.unwrap();
    assert_eq!(resp.status, 201);
    assert_eq!(resp.body, b"wrapped".to_vec());
}

#[test]
fn hello_scenario() {
    let mut r = Router::new();
    r.add_route(HttpMethod::Get, b"/hello/:name", 7, HandlerKind::Sync).unwrap();
    let res = r.resolve(HttpMethod::Get, b"/hello/world").unwrap();
    assert_eq!(res.params.len(), 1);
    assert_eq!(res.params[0].0, b"name".to_vec());
    let mut body = b"Hello, ".to_vec();
    body.extend_from_slice(&res.params[0].1);
    let mut run = ChainRun::new(res.before, res.handler, res.after);
    assert_eq!(run.next_stage(), Some(7));
    run.apply(Outcome::Respond(plain_response(200, &body)));
    assert!(run.is_done());
    let resp = run.response.unwrap();
    assert_eq!(resp.status, 200);
    assert_eq!(resp.body, b"Hello, world".to_vec());
    assert!(r.resolve(HttpMethod::Post, b"/hello/world").is_err());
}
