use hermit_crab::Method;
use hermit_crab::Muxer;
use hermit_crab::Req;
use hermit_crab::Res;

const TEST_REQ_MSG_STR_1: &str =
    "GET /hi HTTP/1.1\r\nHost: www.xiwen.com\r\nContent-Type: text\r\n\r\nWassup!";
const TEST_REQ_MSG_STR_2: &str =
    "GET /haha HTTP/1.1\r\nHost: www.xiwen.com\r\nContent-Type: text\r\n\r\nWassup!";
const TEST_REQ_MSG_STR_3: &str =
    "POST /login HTTP/1.1\r\nHost: www.xiwen.com\r\nContent-Type: text\r\n\r\nWassup!";

type Predicate = Box<dyn Fn(&Req) -> bool>;
type Handler = Box<dyn FnMut(&mut Req, &mut Res)>;

fn create_test_muxer() -> (Muxer, Vec<Predicate>, Vec<Handler>) {
    let mut mux = Muxer::default();

    // handler 0 answers the exact POST /login route
    mux.add_handler(Method::POST, "/login", 0);

    // predicates 0 and 1 chain onto handler 1
    let chain = mux.filter();
    let chain = chain.filter(&mut mux);
    chain.handle(&mut mux, 1);

    let preds: Vec<Predicate> = vec![
        Box::new(|r: &Req| r.method() == Method::GET),
        Box::new(|r: &Req| r.path().as_slice() == b"/hi"),
    ];
    let handlers: Vec<Handler> = vec![
        Box::new(|_req, res: &mut Res| {
            res.set_status(403, "bad login");
        }),
        Box::new(|_req, res: &mut Res| {
            res.set_status(210, "Hello");
        }),
    ];
    (mux, preds, handlers)
}

fn eval_preds(preds: &[Predicate], req: &Req) -> Vec<bool> {
    preds.iter().map(|p| p(req)).collect()
}

#[test]
fn test_matched_handler() {
    let (mux, preds, mut handlers) = create_test_muxer();

    let mut incoming_req = Req::new(TEST_REQ_MSG_STR_1.as_bytes()).unwrap();
    let truth = eval_preds(&preds, &incoming_req);

    let match_res = mux.get_handler(&incoming_req, &truth);
    assert!(match_res.is_some());
    let matched = match_res.unwrap();

    let mut res = Res::new();
    (handlers[matched as usize])(&mut incoming_req, &mut res);

    assert_eq!(res.status().as_slice(), b"Hello");
}

#[test]
fn test_not_matched_handler() {
    let (mux, preds, _handlers) = create_test_muxer();

    let incoming_req = Req::new(TEST_REQ_MSG_STR_2.as_bytes()).unwrap();
    let truth = eval_preds(&preds, &incoming_req);

    let matched_handler = mux.get_handler(&incoming_req, &truth);
    assert!(matched_handler.is_none());
}

#[test]
fn test_match_mapped_handler() {
    let (mux, preds, mut handlers) = create_test_muxer();

    let mut incoming_req = Req::new(TEST_REQ_MSG_STR_3.as_bytes()).unwrap();
    let truth = eval_preds(&preds, &incoming_req);

    let matched_handler = mux.get_handler(&incoming_req, &truth);
    assert!(matched_handler.is_some());

    let mut res = Res::new();
    (handlers[matched_handler.unwrap() as usize])(&mut incoming_req, &mut res);

    assert_eq!(res.status().as_slice(), b"bad login");
}

#[test]
fn chained_predicates_all_must_hold() {
    // a chain of two predicates, then a catch-all filter behind it
    let mut mux = Muxer::new();
    let chain = mux.filter();
    let chain = chain.filter(&mut mux);
    chain.handle(&mut mux, 1);
    let catch_all = mux.filter();
    catch_all.handle(&mut mux, 2);

    let req = Req::new(TEST_REQ_MSG_STR_1.as_bytes()).unwrap();

    // both chained predicates hold: the chain's handler fires
    assert_eq!(mux.get_handler(&req, &[true, true, true]), Some(1));
    // the second predicate fails: the request falls through to the
    // catch-all filter
    assert_eq!(mux.get_handler(&req, &[true, false, true]), Some(2));
    // everything fails: no route
    assert_eq!(mux.get_handler(&req, &[true, false, false]), None);
}

#[test]
fn chain_failure_without_fallback_is_no_route() {
    let mut mux = Muxer::new();
    let chain = mux.filter();
    let chain = chain.filter(&mut mux);
    chain.handle(&mut mux, 5);

    let req = Req::new(TEST_REQ_MSG_STR_2.as_bytes()).unwrap();
    assert_eq!(mux.get_handler(&req, &[false, true]), None);
    assert_eq!(mux.get_handler(&req, &[true, false]), None);
    assert_eq!(mux.get_handler(&req, &[true, true]), Some(5));
}

#[test]
fn exact_route_wins_over_filters() {
    let mut mux = Muxer::new();
    mux.add_handler(Method::GET, "/hi", 7);
    let chain = mux.filter();
    chain.handle(&mut mux, 8);

    let req = Req::new(TEST_REQ_MSG_STR_1.as_bytes()).unwrap();
    // the filter would match, but the exact route wins
    assert_eq!(mux.get_handler(&req, &[true]), Some(7));
}

#[test]
fn serve_static_registers_get_routes() {
    let mut mux = Muxer::new();
    let files: Vec<(Vec<u8>, u64)> = vec![
        (b"assets/main.css".to_vec(), 21),
        (b"index.html".to_vec(), 22),
    ];
    mux.serve_static("/", &files);
    assert_eq!(mux.trie.get("/assets/main.css", Method::GET), Some(21));
    assert_eq!(mux.trie.get("/index.html", Method::GET), Some(22));
    assert_eq!(mux.trie.get("/assets/main.css", Method::POST), None);
    assert_eq!(mux.trie.get("/missing.css", Method::GET), None);
}

#[test]
fn static_file_serves_its_bytes() {
    let css: &[u8] = b"#main-title {\n    color: green;\n}";
    let mut mux = Muxer::new();
    let files: Vec<(Vec<u8>, u64)> = vec![(b"assets/main.css".to_vec(), 0)];
    mux.serve_static("/", &files);

    let mut handlers: Vec<Box<dyn FnMut(&mut Req, &mut Res)>> =
        vec![Box::new(move |_req, res: &mut Res| {
            res.respond(css).unwrap();
        })];

    let raw = "GET /assets/main.css HTTP/1.1\r\nHost: www.xiwen.com\r\n\r\n";
    let mut req = Req::new(raw.as_bytes()).unwrap();
    let id = mux.get_handler(&req, &[]).unwrap();
    let mut res = Res::new();
    (handlers[id as usize])(&mut req, &mut res);
    assert_eq!(
        res.written().as_slice(),
        "HTTP/1.x 200 OK\r\nContent-Length: 33\r\n\r\n#main-title {\n    color: green;\n}"
            .as_bytes()
    );
}
