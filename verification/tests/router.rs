use core_mini_http::http::{HttpMethod, HttpRequestMessage, HttpResponseMessage};
use core_mini_http::router::{
    dispatch, http_router, surface, DynamicUrl, HttpRoute, HttpRouteDynamicUrl, HttpRouteEntry,
    HttpRouteStaticUrl, HttpRouterError, UrlSegment,
};
use core_mini_http::strmap::StringMap;

type StaticHandler = fn(&HttpRequestMessage) -> Result<HttpResponseMessage, HttpRouterError>;

type DynamicHandler =
    fn(&HttpRequestMessage, &StringMap) -> Result<HttpResponseMessage, HttpRouterError>;

type Entry = HttpRouteEntry<StaticHandler, DynamicHandler>;

fn say_static(_req: &HttpRequestMessage) -> Result<HttpResponseMessage, HttpRouterError> {
    Ok(HttpResponseMessage::text_utf8("static"))
}

fn say_form(req: &HttpRequestMessage) -> Result<HttpResponseMessage, HttpRouterError> {
    Ok(HttpResponseMessage::text_utf8(&format!("form {}", req.body.len())))
}

fn say_variable(
    _req: &HttpRequestMessage,
    vars: &StringMap,
) -> Result<HttpResponseMessage, HttpRouterError> {
    let mut text = String::from("dynamic");
    for i in 0..vars.len() {
        text.push_str(&format!(" {}={}", vars.key_at(i), vars.value_at(i)));
    }
    Ok(HttpResponseMessage::text_utf8(&text))
}

fn fail_static(_req: &HttpRequestMessage) -> Result<HttpResponseMessage, HttpRouterError> {
    Err(HttpRouterError::NoRouteFound)
}

fn fail_dynamic(
    _req: &HttpRequestMessage,
    _vars: &StringMap,
) -> Result<HttpResponseMessage, HttpRouterError> {
    Err(HttpRouterError::HandlerError)
}

fn request(method: HttpMethod, url: &str) -> HttpRequestMessage {
    let mut req = HttpRequestMessage::new_get(url, "localhost");
    req.method = method;
    req
}

fn body_text(result: Result<HttpResponseMessage, HttpRouterError>) -> String {
    String::from_utf8(result.unwrap().body).unwrap()
}

fn vars_of(pairs: &[(&str, &str)]) -> StringMap {
    let mut map = StringMap::new();
    for (k, v) in pairs {
        map.insert(k.to_string(), v.to_string());
    }
    map
}

#[test]
fn compiling_patterns() {
    let url = DynamicUrl::parse_str("/test/:id/").unwrap();
    assert_eq!(
        url.segments,
        vec![
            UrlSegment::Literal("".to_string()),
            UrlSegment::Literal("test".to_string()),
            UrlSegment::Variable("id".to_string()),
            UrlSegment::Literal("".to_string()),
        ]
    );
    assert_eq!(DynamicUrl::parse_str(""), None);
    assert_eq!(
        DynamicUrl::parse_str(":").unwrap().segments,
        vec![UrlSegment::Variable("".to_string())]
    );
    assert_eq!(
        DynamicUrl::parse_str("a:b/::c").unwrap().segments,
        vec![UrlSegment::Literal("a:b".to_string()), UrlSegment::Variable(":c".to_string())]
    );
    assert_eq!(
        DynamicUrl::parse_str("/").unwrap().segments,
        vec![UrlSegment::Literal("".to_string()), UrlSegment::Literal("".to_string())]
    );
}

#[test]
fn variable_capture() {
    let url = DynamicUrl::parse_str("/test/:id/").unwrap();
    assert_eq!(url.matches("/test/42/"), Some(vars_of(&[("id", "42")])));
    assert_eq!(url.matches("/test/42"), None);
    assert_eq!(url.matches("/test/42/x"), None);
    assert_eq!(url.matches("/test/42/extra/"), None);
    assert_eq!(url.matches("/Test/42/"), None);
    assert_eq!(url.matches("/test//"), Some(vars_of(&[("id", "")])));
    assert_eq!(url.matches("/test/a%20b/"), Some(vars_of(&[("id", "a%20b")])));
    assert_eq!(url.matches("/test/caf\u{e9}/"), Some(vars_of(&[("id", "caf\u{e9}")])));
    assert_eq!(url.matches("test/42/"), None);
    assert_eq!(url.matches(""), None);
}

#[test]
fn several_variables() {
    let url = DynamicUrl::parse_str("/:a/x/:b").unwrap();
    assert_eq!(url.matches("/1/x/2"), Some(vars_of(&[("a", "1"), ("b", "2")])));
    assert_eq!(url.matches("/1/y/2"), None);
    let twice = DynamicUrl::parse_str("/:a/:a").unwrap();
    assert_eq!(twice.matches("/1/2"), Some(vars_of(&[("a", "2")])));
    let fixed = DynamicUrl::parse_str("/a/b").unwrap();
    assert_eq!(fixed.matches("/a/b"), Some(StringMap::new()));
    assert_eq!(fixed.matches("/a/c"), None);
    assert_eq!(fixed.matches("/c/b"), None);
}

#[test]
fn static_route_matches_paths_and_methods() {
    let route: HttpRouteStaticUrl<StaticHandler> = HttpRouteStaticUrl {
        urls: vec!["/form".to_string(), "/form/".to_string()],
        methods: vec![HttpMethod::Post, HttpMethod::Put],
        action: say_form,
    };
    assert_eq!(route.matches(HttpMethod::Post, "/form"), Some(StringMap::new()));
    assert_eq!(route.matches(HttpMethod::Put, "/form/"), Some(StringMap::new()));
    assert_eq!(route.matches(HttpMethod::Get, "/form"), None);
    assert_eq!(route.matches(HttpMethod::Post, "/form/x"), None);
    assert_eq!(route.matches(HttpMethod::Post, "/for"), None);
    let mut req = request(HttpMethod::Post, "/form");
    req.body = b"abc".to_vec();
    assert_eq!(body_text(route.execute(&req)), "form 3");
    let get: HttpRouteStaticUrl<StaticHandler> = HttpRouteStaticUrl::new_get("/", say_static);
    assert_eq!(get.urls, vec!["/".to_string()]);
    assert_eq!(get.methods, vec![HttpMethod::Get]);
    assert_eq!(get.matches(HttpMethod::Get, "/"), Some(StringMap::new()));
    assert_eq!(get.matches(HttpMethod::Head, "/"), None);
    let none: HttpRouteStaticUrl<StaticHandler> =
        HttpRouteStaticUrl { urls: vec![], methods: vec![], action: say_static };
    assert_eq!(none.matches(HttpMethod::Get, ""), None);
}

#[test]
fn dynamic_route_matches_pattern_and_method() {
    let route: HttpRouteDynamicUrl<DynamicHandler> = HttpRouteDynamicUrl::new(
        DynamicUrl::parse_str("/test/:id/").unwrap(),
        HttpMethod::Get,
        say_variable,
    );
    assert_eq!(route.matches(HttpMethod::Get, "/test/7/"), Some(vars_of(&[("id", "7")])));
    assert_eq!(route.matches(HttpMethod::Post, "/test/7/"), None);
    assert_eq!(route.matches(HttpMethod::Get, "/test/7"), None);
    assert_eq!(body_text(route.execute(&request(HttpMethod::Get, "/test/7/"))), "dynamic id=7");
    assert_eq!(
        route.execute(&request(HttpMethod::Get, "/other")),
        Err(HttpRouterError::NoRouteFound)
    );
}

#[test]
fn route_precedence() {
    let routes: Vec<Entry> = vec![
        HttpRouteEntry::Static(HttpRouteStaticUrl::new_get("/a", say_static)),
        HttpRouteEntry::Dynamic(HttpRouteDynamicUrl::new(
            DynamicUrl::parse_str("/:x").unwrap(),
            HttpMethod::Get,
            say_variable,
        )),
    ];
    assert_eq!(body_text(dispatch(&routes, &request(HttpMethod::Get, "/a"))), "static");
    assert_eq!(body_text(dispatch(&routes, &request(HttpMethod::Get, "/b"))), "dynamic x=b");
    assert!(matches!(
        http_router(&routes, &request(HttpMethod::Get, "/a")),
        Ok(HttpRouteEntry::Static(_))
    ));
    assert!(matches!(
        http_router(&routes, &request(HttpMethod::Get, "/b")),
        Ok(HttpRouteEntry::Dynamic(_))
    ));
    let reversed: Vec<Entry> = vec![
        HttpRouteEntry::Dynamic(HttpRouteDynamicUrl::new(
            DynamicUrl::parse_str("/:x").unwrap(),
            HttpMethod::Get,
            say_variable,
        )),
        HttpRouteEntry::Static(HttpRouteStaticUrl::new_get("/a", say_static)),
    ];
    assert_eq!(body_text(dispatch(&reversed, &request(HttpMethod::Get, "/a"))), "dynamic x=a");
}

#[test]
fn no_route_found() {
    let routes: Vec<Entry> = vec![
        HttpRouteEntry::Static(HttpRouteStaticUrl::new_get("/a", say_static)),
        HttpRouteEntry::Dynamic(HttpRouteDynamicUrl::new(
            DynamicUrl::parse_str("/test/:id/").unwrap(),
            HttpMethod::Get,
            say_variable,
        )),
    ];
    assert_eq!(
        dispatch(&routes, &request(HttpMethod::Get, "/nothing")),
        Err(HttpRouterError::NoRouteFound)
    );
    assert_eq!(
        dispatch(&routes, &request(HttpMethod::Post, "/a")),
        Err(HttpRouterError::NoRouteFound)
    );
    assert!(matches!(
        http_router(&routes, &request(HttpMethod::Post, "/test/1/")),
        Err(HttpRouterError::NoRouteFound)
    ));
    let empty: Vec<Entry> = Vec::new();
    assert_eq!(
        dispatch(&empty, &request(HttpMethod::Get, "/")),
        Err(HttpRouterError::NoRouteFound)
    );
}

#[test]
fn handler_error_does_not_fall_through() {
    let routes: Vec<Entry> = vec![
        HttpRouteEntry::Static(HttpRouteStaticUrl::new_get("/a", fail_static)),
        HttpRouteEntry::Dynamic(HttpRouteDynamicUrl::new(
            DynamicUrl::parse_str("/b/:x").unwrap(),
            HttpMethod::Get,
            fail_dynamic,
        )),
        HttpRouteEntry::Static(HttpRouteStaticUrl::new_get("/a", say_static)),
        HttpRouteEntry::Dynamic(HttpRouteDynamicUrl::new(
            DynamicUrl::parse_str("/:y/:x").unwrap(),
            HttpMethod::Get,
            say_variable,
        )),
    ];
    assert_eq!(
        dispatch(&routes, &request(HttpMethod::Get, "/a")),
        Err(HttpRouterError::HandlerError)
    );
    assert_eq!(
        dispatch(&routes, &request(HttpMethod::Get, "/b/1")),
        Err(HttpRouterError::HandlerError)
    );
    assert_eq!(body_text(dispatch(&routes, &request(HttpMethod::Get, "/c/1"))), "dynamic x=1 y=c");
}

#[test]
fn routes_can_hold_closures() {
    let greeting = String::from("hello");
    let routes: Vec<
        HttpRouteEntry<
            Box<dyn Fn(&HttpRequestMessage) -> Result<HttpResponseMessage, HttpRouterError>>,
            Box<
                dyn Fn(
                    &HttpRequestMessage,
                    &StringMap,
                ) -> Result<HttpResponseMessage, HttpRouterError>,
            >,
        >,
    > = vec![
        HttpRouteEntry::Static(HttpRouteStaticUrl::new_get(
            "/",
            Box::new(move |_req| Ok(HttpResponseMessage::html_utf8(&greeting))),
        )),
        HttpRouteEntry::Dynamic(HttpRouteDynamicUrl::new(
            DynamicUrl::parse_str("/test/:id/").unwrap(),
            HttpMethod::Get,
            Box::new(|_req, vars| {
                Ok(HttpResponseMessage::html_utf8(&format!("ID: {}", vars.get("id").unwrap())))
            }),
        )),
    ];
    assert_eq!(body_text(dispatch(&routes, &request(HttpMethod::Get, "/"))), "hello");
    assert_eq!(body_text(dispatch(&routes, &request(HttpMethod::Get, "/test/42/"))), "ID: 42");
}

#[test]
fn handler_failures_are_surfaced_as_handler_error() {
    assert_eq!(surface(Err(HttpRouterError::NoRouteFound)), Err(HttpRouterError::HandlerError));
    assert_eq!(surface(Err(HttpRouterError::HandlerError)), Err(HttpRouterError::HandlerError));
    assert_eq!(
        surface(Ok(HttpResponseMessage::text_utf8("x"))),
        Ok(HttpResponseMessage::text_utf8("x"))
    );
    let route: HttpRouteStaticUrl<StaticHandler> = HttpRouteStaticUrl::new_get("/a", fail_static);
    assert_eq!(route.execute(&request(HttpMethod::Get, "/a")), Err(HttpRouterError::HandlerError));
}
