use hermit_crab::Method;
use hermit_crab::Req;
use hermit_crab::Res;
use hermit_crab::RouteMap;

const HTTP_REQ_STR: &str =
    "GET /index.html HTTP/1.1\r\nHost: www.xiwen.com\r\nContent-Length: 5\r\n\r\nHello";

#[test]
fn test_route_map() {
    let http_req = String::from(HTTP_REQ_STR);
    let mut req = Req::new(http_req.as_bytes()).unwrap();
    let mut res = Res::new();

    let mut rm = RouteMap::default();

    let mut handlers: Vec<Box<dyn FnMut(&mut Req, &mut Res)>> = vec![
        Box::new(|_req, resp: &mut Res| {
            resp.set_status(100, "wo");
        }),
        Box::new(|_req, resp: &mut Res| {
            resp.set_status(300, "hello");
        }),
    ];

    rm.register(Method::UNKNOWN, "/", 0);
    rm.register(Method::GET, "/hello", 1);

    let mut test_trigger = |rm: &RouteMap,
                            m: Method,
                            p: &'static str,
                            expected_size: usize,
                            expected_status: &'static str| {
        let hs = rm.get_handlers(m, p);
        if expected_size != 0 {
            assert_eq!(hs.len(), expected_size);
        }
        for h in hs {
            (handlers[h as usize])(&mut req, &mut res);
        }

        assert_eq!(res.status().as_slice(), expected_status.as_bytes());
    };

    test_trigger(&rm, Method::UNKNOWN, "", 2, "hello");

    test_trigger(&rm, Method::UNKNOWN, "/", 1, "wo");

    test_trigger(&rm, Method::GET, "", 1, "hello");
}

#[test]
fn unregistered_pair_yields_no_handlers() {
    let mut rm = RouteMap::new();
    rm.register(Method::GET, "/a", 4);
    assert!(rm.get_handlers(Method::POST, "/a").is_empty());
    assert!(rm.get_handlers(Method::GET, "/b").is_empty());
    assert_eq!(rm.get_handlers(Method::GET, "/a"), vec![4]);
}
