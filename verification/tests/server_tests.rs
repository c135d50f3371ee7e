use hermit_crab::respond_empty_fallback;
use hermit_crab::respond_not_found;
use hermit_crab::Handle;
use hermit_crab::LinePool;
use hermit_crab::Method;
use hermit_crab::Req;
use hermit_crab::Res;

struct CountingHandler {
    hits: usize,
}

impl Handle for CountingHandler {
    fn handle(&mut self, request: &mut Req, response: &mut Res) {
        self.hits += 1;
        let host = request.headers.get(b"Host").cloned().unwrap_or_default();
        response.respond(&host).unwrap();
    }
}

// A worker's whole handling of one connection, minus the socket: parse
// the head, resolve a handler, run it, and synthesize the fallback
// responses the pool owes.

fn handle_request(
    pool: &LinePool,
    handlers: &mut [Box<dyn FnMut(&mut Req, &mut Res)>],
    raw: &[u8],
) -> Vec<u8> {
    let mut res = Res::new();
    match Req::new(raw) {
        Err(_) => {
            res.set_status(400, "Bad Request");
            res.respond(b"Bad Request").unwrap();
        }
        Ok(mut req) => {
            let truth: Vec<bool> = Vec::new();
            match pool.http_muxer.get_handler(&req, &truth) {
                Some(id) => {
                    (handlers[id as usize])(&mut req, &mut res);
                    respond_empty_fallback(&mut res);
                }
                None => {
                    respond_not_found(&mut res).unwrap();
                }
            }
        }
    }
    res.written().clone()
}

#[test]
fn get_hello_end_to_end() {
    let mut pool = LinePool::new(4);
    pool.http_muxer.add_handler(Method::GET, "/hello", 0);
    let mut handlers: Vec<Box<dyn FnMut(&mut Req, &mut Res)>> =
        vec![Box::new(|_req, res: &mut Res| {
            res.respond(b"Hello").unwrap();
        })];

    let out = handle_request(
        &pool,
        &mut handlers,
        b"GET /hello HTTP/1.1\r\nHost: localhost\r\n\r\n",
    );
    assert_eq!(
        out.as_slice(),
        b"HTTP/1.x 200 OK\r\nContent-Length: 5\r\n\r\nHello"
    );
}

#[test]
fn unregistered_path_end_to_end_is_not_found() {
    let mut pool = LinePool::new(4);
    pool.http_muxer.add_handler(Method::GET, "/hello", 0);
    let mut handlers: Vec<Box<dyn FnMut(&mut Req, &mut Res)>> =
        vec![Box::new(|_req, res: &mut Res| {
            res.respond(b"Hello").unwrap();
        })];

    let out = handle_request(
        &pool,
        &mut handlers,
        b"GET /nothing HTTP/1.1\r\nHost: localhost\r\n\r\n",
    );
    assert!(out.starts_with(b"HTTP/1.x 404 Not Found\r\n"));
    assert!(out.ends_with(b"\r\n\r\nNot Found"));
}

#[test]
fn silent_handler_yields_empty_response_fallback() {
    let mut pool = LinePool::new(4);
    pool.http_muxer.add_handler(Method::GET, "/quiet", 0);
    let mut handlers: Vec<Box<dyn FnMut(&mut Req, &mut Res)>> =
        vec![Box::new(|_req, _res: &mut Res| {})];

    let out = handle_request(
        &pool,
        &mut handlers,
        b"GET /quiet HTTP/1.1\r\nHost: localhost\r\n\r\n",
    );
    assert_eq!(
        out.as_slice(),
        b"HTTP/1.x 500 Empty Response\r\nContent-Length: 14\r\n\r\nEmpty Response"
    );
}

#[test]
fn headers_survive_end_to_end() {
    let mut pool = LinePool::new(1);
    pool.http_muxer.add_handler(Method::GET, "/echo-host", 0);
    let mut h = CountingHandler { hits: 0 };

    let raw = b"GET /echo-host HTTP/1.1\r\nHost: example.test\r\n\r\n";
    let mut req = Req::new(raw.as_slice()).unwrap();
    let truth: Vec<bool> = Vec::new();
    let id = pool.http_muxer.get_handler(&req, &truth).unwrap();
    assert_eq!(id, 0);
    let mut res = Res::new();
    h.handle(&mut req, &mut res);
    assert_eq!(h.hits, 1);
    assert_eq!(
        res.written().as_slice(),
        b"HTTP/1.x 200 OK\r\nContent-Length: 12\r\n\r\nexample.test"
    );
}
