use tinyhttp::method::Method;
use tinyhttp::http_status::HttpStatus;
use tinyhttp::request::ServerRequest;
use tinyhttp::response::{Response, ResponseBuilder};
use tinyhttp::route::{named_path_filter, RouteKey, RouteMap};
use tinyhttp::server::{dispatch, error_response, Dispatch, Server};

#[test]
fn test_eq() {
    let route_0 = RouteKey("/".to_owned());
    let route_1 = RouteKey("/hello/{name}".to_owned());
    let route_2 = RouteKey("/hello/{name}/{age}".to_owned());
    let route_3 = RouteKey("/hello".to_owned());

    let request_uri_0 = RouteKey("/".to_owned());
    let request_uri_1 = RouteKey("/hello/Zak".to_owned());
    let request_uri_2 = RouteKey("/hello/Zak/24".to_owned());
    let request_uri_3 = RouteKey("/hello".to_owned());

    assert_eq!(route_0, request_uri_0);
    assert_ne!(route_0, request_uri_1);
    assert_ne!(route_0, request_uri_2);
    assert_ne!(route_0, request_uri_3);

    assert_ne!(route_1, request_uri_0);
    assert_eq!(route_1, request_uri_1);
    assert_ne!(route_1, request_uri_2);
    assert_ne!(route_1, request_uri_3);

    assert_ne!(route_2, request_uri_0);
    assert_ne!(route_2, request_uri_1);
    assert_eq!(route_2, request_uri_2);
    assert_ne!(route_2, request_uri_3);

    assert_ne!(route_3, request_uri_0);
    assert_ne!(route_3, request_uri_1);
    assert_ne!(route_3, request_uri_2);
    assert_eq!(route_3, request_uri_3);
}

#[test]
fn literal_segments_match_case_insensitively() {
    assert_eq!(
        RouteKey("/Hello/World".to_owned()),
        RouteKey("/hello/WORLD".to_owned())
    );
    assert_ne!(
        RouteKey("/hello".to_owned()),
        RouteKey("/goodbye".to_owned())
    );
}

#[test]
fn wildcard_needs_a_non_empty_segment() {
    assert_ne!(
        RouteKey("/hello/{name}".to_owned()),
        RouteKey("/hello/".to_owned())
    );
    assert_eq!(
        RouteKey("/hello/{name}".to_owned()),
        RouteKey("/hello/x".to_owned())
    );
}

#[test]
fn named_path_filter_shapes() {
    assert!(named_path_filter("{name}"));
    assert!(named_path_filter("{}"));
    assert!(!named_path_filter("{name"));
    assert!(!named_path_filter("name}"));
    assert!(!named_path_filter(""));
}

#[test]
fn routing_wildcard() {
    let mut routes: RouteMap<u32> = RouteMap::new();
    routes.insert(RouteKey("/hello/{name}".to_owned()), Method::GET, 7);

    let uri = RouteKey("/hello/Zak".to_owned());
    match dispatch(&routes, &uri, Method::GET) {
        Dispatch::Matched(key, handler) => {
            assert_eq!(key.0, "/hello/{name}");
            assert_eq!(*handler, 7);
        }
        _ => panic!("expected a matched route"),
    }
}

#[test]
fn method_mismatch_is_405() {
    let mut routes: RouteMap<u32> = RouteMap::new();
    routes.insert(RouteKey("/x".to_owned()), Method::GET, 1);

    let uri = RouteKey("/x".to_owned());
    match dispatch(&routes, &uri, Method::POST) {
        Dispatch::MethodMissing => {}
        _ => panic!("expected a method mismatch"),
    }

    let response = error_response(HttpStatus::MethodNotAllowed);
    assert_eq!(response.header.status_code, 405);
    assert!(response.body.contents.is_empty());
}

#[test]
fn unknown_path_is_404_with_zero_length() {
    let routes: RouteMap<u32> = RouteMap::new();

    let uri = RouteKey("/anything".to_owned());
    match dispatch(&routes, &uri, Method::GET) {
        Dispatch::NoRoute => {}
        _ => panic!("expected no route"),
    }

    let response = error_response(HttpStatus::NotFound);
    let bytes = response.to_bytes();
    let text = std::str::from_utf8(&bytes).unwrap();
    assert!(text.starts_with("HTTP/1.1 404 Not Found\r\n"));
    assert!(text.contains("Content-Length: 0\r\n"));
}

#[test]
fn first_match_wins_in_declaration_order() {
    let routes: RouteMap<u32> = RouteMap {
        all_routes: vec![
            (RouteKey("/a/{x}".to_owned()), vec![(Method::GET, 1)]),
            (RouteKey("/a/b".to_owned()), vec![(Method::GET, 2)]),
        ],
    };

    let uri = RouteKey("/a/b".to_owned());
    match dispatch(&routes, &uri, Method::GET) {
        Dispatch::Matched(key, handler) => {
            assert_eq!(key.0, "/a/{x}");
            assert_eq!(*handler, 1);
        }
        _ => panic!("expected a matched route"),
    }
}

#[test]
fn a_pattern_matching_an_existing_route_merges_into_it() {
    let mut routes: RouteMap<u32> = RouteMap::new();
    routes.insert(RouteKey("/a/{x}".to_owned()), Method::GET, 1);
    routes.insert(RouteKey("/a/b".to_owned()), Method::POST, 2);

    assert_eq!(routes.all_routes.len(), 1);
    let uri = RouteKey("/a/q".to_owned());
    match dispatch(&routes, &uri, Method::POST) {
        Dispatch::Matched(key, handler) => {
            assert_eq!(key.0, "/a/{x}");
            assert_eq!(*handler, 2);
        }
        _ => panic!("expected a matched route"),
    }
}

#[test]
fn test_server() {
    let s = Server::new([127, 0, 0, 1], 1234);

    let h1: fn(ServerRequest) -> Response = |_| ResponseBuilder::new().build();
    let h2: fn(ServerRequest) -> Response = |_| ResponseBuilder::new().build();

    s.at("/hello").get(h1).connect(h2);
}

#[test]
fn registered_routes_dispatch_through_the_server() {
    let s = Server::new([0, 0, 0, 0], 8080);
    let h: fn(ServerRequest) -> Response = |_| ResponseBuilder::new().build();
    let s = s.at("/ping").get(h).into_server();

    let uri = RouteKey("/ping".to_owned());
    match dispatch(&s.routes, &uri, Method::GET) {
        Dispatch::Matched(key, _) => assert_eq!(key.0, "/ping"),
        _ => panic!("expected a matched route"),
    }
    match dispatch(&s.routes, &uri, Method::POST) {
        Dispatch::MethodMissing => {}
        _ => panic!("expected a method mismatch"),
    }
}
