use robyn::router::{MiddlewareScope, Router};
use robyn::types::{HandlerKind, HttpMethod, MiddlewarePhase, RegisterError, ResolveError};

#[test]
fn resolve_registered_route() {
    let mut r = Router::new();
    r.add_route(HttpMethod::Get, b"/users/:id", 11, HandlerKind::Sync).unwrap();
    let res = r.resolve(HttpMethod::Get, b"/users/42").unwrap();
    assert_eq!(res.handler, 11);
    assert_eq!(res.params.len(), 1);
    assert_eq!(res.params[0].0, b"id".to_vec());
    assert_eq!(res.params[0].1, b"42".to_vec());
    assert!(matches!(r.resolve(HttpMethod::Get, b"/orders/42"), Err(ResolveError::NotFound)));
}

#[test]
fn specificity_literal_over_param() {
    let mut r = Router::new();
    r.add_route(HttpMethod::Get, b"/users/:id", 1, HandlerKind::Sync).unwrap();
    r.add_route(HttpMethod::Get, b"/users/profile", 2, HandlerKind::Sync).unwrap();
    let res = r.resolve(HttpMethod::Get, b"/users/profile").unwrap();
    assert_eq!(res.handler, 2);
    let res = r.resolve(HttpMethod::Get, b"/users/41").unwrap();
    assert_eq!(res.handler, 1);
}

#[test]
fn specificity_order_independent() {
    let mut r = Router::new();
    r.add_route(HttpMethod::Get, b"/users/profile", 2, HandlerKind::Sync).unwrap();
    r.add_route(HttpMethod::Get, b"/users/:id", 1, HandlerKind::Sync).unwrap();
    let res = r.resolve(HttpMethod::Get, b"/users/profile").unwrap();
    assert_eq!(res.handler, 2);
}

#[test]
fn equally_specific_earliest_wins() {
    let mut r = Router::new();
    r.add_route(HttpMethod::Get, b"/a/:x", 1, HandlerKind::Sync).unwrap();
    r.add_route(HttpMethod::Get, b"/a/:y", 2, HandlerKind::Sync).unwrap();
    let res = r.resolve(HttpMethod::Get, b"/a/zzz").unwrap();
    assert_eq!(res.handler, 1);
}

#[test]
fn reregistration_overwrites() {
    let mut r = Router::new();
    r.add_route(HttpMethod::Get, b"/a/b", 1, HandlerKind::Sync).unwrap();
    r.add_route(HttpMethod::Get, b"/a/b", 2, HandlerKind::AsyncNative).unwrap();
    assert_eq!(r.routes.len(), 1);
    let res = r.resolve(HttpMethod::Get, b"/a/b").unwrap();
    assert_eq!(res.handler, 2);
    assert!(matches!(res.kind, HandlerKind::AsyncNative));
}

#[test]
fn malformed_patterns_rejected() {
    let mut r = Router::new();
    assert!(matches!(
        r.add_route(HttpMethod::Get, b"/a/*/b", 1, HandlerKind::Sync),
        Err(RegisterError::MalformedPattern)
    ));
    assert!(matches!(
        r.add_route(HttpMethod::Get, b"/x/:", 1, HandlerKind::Sync),
        Err(RegisterError::MalformedPattern)
    ));
    assert_eq!(r.routes.len(), 0);
}

#[test]
fn wildcard_matches_remainder() {
    let mut r = Router::new();
    r.add_route(HttpMethod::Get, b"/files/*", 9, HandlerKind::Sync).unwrap();
    assert!(r.resolve(HttpMethod::Get, b"/files/a/b/c").is_ok());
    assert!(r.resolve(HttpMethod::Get, b"/files").is_ok());
    assert!(r.resolve(HttpMethod::Get, b"/other").is_err());
}

#[test]
fn method_must_match() {
    let mut r = Router::new();
    r.add_route(HttpMethod::Get, b"/hello/:name", 7, HandlerKind::Sync).unwrap();
    assert!(matches!(r.resolve(HttpMethod::Post, b"/hello/world"), Err(ResolveError::NotFound)));
}

#[test]
fn path_normalization() {
    let mut r = Router::new();
    r.add_route(HttpMethod::Get, b"/a/b", 5, HandlerKind::Sync).unwrap();
    assert!(r.resolve(HttpMethod::Get, b"a/b/").is_ok());
    assert!(r.resolve(HttpMethod::Get, b"//a//b").is_ok());
}

#[test]
fn middleware_chains_assembled_in_order() {
    let mut r = Router::new();
    r.add_route(HttpMethod::Get, b"/p", 100, HandlerKind::Sync).unwrap();
    r.add_middleware(MiddlewarePhase::Before, MiddlewareScope::Global, 1).unwrap();
    r.add_middleware(
        MiddlewarePhase::Before,
        MiddlewareScope::Route(HttpMethod::Get, b"/p".to_vec()),
        2,
    )
    .unwrap();
    r.add_middleware(
        MiddlewarePhase::After,
        MiddlewareScope::Route(HttpMethod::Get, b"/p".to_vec()),
        3,
    )
    .unwrap();
    r.add_middleware(MiddlewarePhase::After, MiddlewareScope::Global, 4).unwrap();
    let res = r.resolve(HttpMethod::Get, b"/p").unwrap();
    assert_eq!(res.before, vec![1, 2]);
    assert_eq!(res.after, vec![3, 4]);
}

#[test]
fn route_middleware_needs_registered_route() {
    let mut r = Router::new();
    assert!(matches!(
        r.add_middleware(
            MiddlewarePhase::Before,
            MiddlewareScope::Route(HttpMethod::Get, b"/nope".to_vec()),
            1,
        ),
        Err(RegisterError::UnknownRoute)
    ));
}
