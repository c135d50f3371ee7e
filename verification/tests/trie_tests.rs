use hermit_crab::Method;
use hermit_crab::Node;
use hermit_crab::Req;
use hermit_crab::Res;
use hermit_crab::Trie;

const SAMPLE_REQ: &str = "GET /index.html HTTP/1.1\r\nHost: www.xiwen.com\r\nAccept-Language: en-us\r\nContent-Length: 5\r\n\r\nHello";

fn sample_handlers() -> Vec<Box<dyn FnMut(&mut Req, &mut Res)>> {
    (0u32..3)
        .map(|index| {
            Box::new(move |_req: &mut Req, res: &mut Res| {
                res.respond(format!("sample handler #{}", index).as_bytes())
                    .unwrap();
            }) as Box<dyn FnMut(&mut Req, &mut Res)>
        })
        .collect()
}

fn get_node_with_whenwhere() -> Node {
    Node::Passby {
        seg: b"".to_vec(),
        children: vec![Node::Passby {
            seg: b"whe".to_vec(),
            children: vec![
                Node::Passby {
                    seg: b"n".to_vec(),
                    children: vec![Node::Terminal {
                        method: Method::GET,
                        handler: 0,
                    }],
                },
                Node::Passby {
                    seg: b"re".to_vec(),
                    children: vec![Node::Terminal {
                        method: Method::POST,
                        handler: 1,
                    }],
                },
            ],
        }],
    }
}

fn count_terminals(n: &Node) -> usize {
    match n {
        Node::Terminal { .. } => 1,
        Node::Passby { children, .. } => children.iter().map(count_terminals).sum(),
    }
}

#[test]
fn node_can_attach() {
    let mut handlers = sample_handlers();
    let root_node = get_node_with_whenwhere();
    let root_node = root_node.attach("what", 0, Method::GET, 2);

    let mut incoming_req = Req::new(SAMPLE_REQ.as_bytes()).unwrap();
    let mut res = Res::new();

    let retrieved = root_node.get("what", Method::GET).unwrap();
    (handlers[retrieved as usize])(&mut incoming_req, &mut res);
    assert_eq!(
        res.written().as_slice(),
        "HTTP/1.x 200 OK\r\nContent-Length: 17\r\n\r\nsample handler #2".as_bytes()
    );
}

#[test]
fn trie_can_insert_and_get() {
    let mut tr = Trie::default();
    tr.insert("hello/world", Method::GET, 1);
    let h = tr.get("hello/world", Method::GET);
    assert!(h.is_some());
}

#[test]
fn node_return_none_when_nothing_found() {
    let n = get_node_with_whenwhere();
    assert!(n.get("/wowow", Method::GET).is_none());
}

#[test]
fn split_preserves_all_three_routes() {
    let mut tr = Trie::new();
    tr.insert("when", Method::GET, 10);
    tr.insert("where", Method::POST, 11);
    tr.insert("what", Method::GET, 12);
    assert_eq!(tr.get("when", Method::GET), Some(10));
    assert_eq!(tr.get("where", Method::POST), Some(11));
    assert_eq!(tr.get("what", Method::GET), Some(12));
    assert_eq!(tr.get("whe", Method::GET), None);
    assert_eq!(tr.get("wh", Method::GET), None);
}

#[test]
fn reregistering_overwrites_without_duplicating() {
    let mut tr = Trie::new();
    tr.insert("hello", Method::GET, 1);
    let before = count_terminals(&tr.root);
    tr.insert("hello", Method::GET, 2);
    assert_eq!(tr.get("hello", Method::GET), Some(2));
    assert_eq!(count_terminals(&tr.root), before);
}

#[test]
fn prefix_route_and_extension_coexist() {
    let mut tr = Trie::new();
    tr.insert("hello/world", Method::GET, 1);
    tr.insert("hello", Method::GET, 2);
    assert_eq!(tr.get("hello/world", Method::GET), Some(1));
    assert_eq!(tr.get("hello", Method::GET), Some(2));

    let mut tr2 = Trie::new();
    tr2.insert("hello", Method::GET, 3);
    tr2.insert("hello/world", Method::GET, 4);
    assert_eq!(tr2.get("hello", Method::GET), Some(3));
    assert_eq!(tr2.get("hello/world", Method::GET), Some(4));
}

#[test]
fn unrelated_routes_at_same_level() {
    let mut tr = Trie::new();
    tr.insert("abc", Method::GET, 1);
    tr.insert("xyz", Method::GET, 2);
    tr.insert("mno", Method::PUT, 3);
    assert_eq!(tr.get("abc", Method::GET), Some(1));
    assert_eq!(tr.get("xyz", Method::GET), Some(2));
    assert_eq!(tr.get("mno", Method::PUT), Some(3));
    assert_eq!(tr.get("abc", Method::POST), None);
}

#[test]
fn lookup_does_not_fall_back_across_methods() {
    let mut tr = Trie::new();
    tr.insert("login", Method::POST, 1);
    tr.insert("login", Method::GET, 2);
    assert_eq!(tr.get("login", Method::POST), Some(1));
    assert_eq!(tr.get("login", Method::GET), Some(2));
    assert_eq!(tr.get("login", Method::DELETE), None);
}

#[test]
fn insertion_order_does_not_change_lookups() {
    let routes: Vec<(&str, Method, u64)> = vec![
        ("whe", Method::GET, 1),
        ("when", Method::GET, 2),
        ("where", Method::POST, 3),
        ("what", Method::GET, 4),
        ("w", Method::DELETE, 5),
        ("whenever", Method::GET, 6),
    ];
    // rotate through several insertion orders; lookups must not depend
    // on the order the routes arrived in
    for start in 0..routes.len() {
        let mut tr = Trie::new();
        for k in 0..routes.len() {
            let (p, m, h) = routes[(start + k) % routes.len()];
            tr.insert(p, m, h);
        }
        for (p, m, h) in routes.iter() {
            assert_eq!(tr.get(p, *m), Some(*h));
        }
        assert_eq!(tr.get("wh", Method::GET), None);
        assert_eq!(tr.get("whence", Method::GET), None);
    }
}

#[test]
fn every_registration_answers_with_its_last_handler() {
    let routes: Vec<(&str, Method, u64)> = vec![
        ("a", Method::GET, 1),
        ("ab", Method::POST, 2),
        ("b", Method::GET, 3),
        ("a/c", Method::GET, 4),
        ("ab", Method::GET, 5),
        ("abcd", Method::DELETE, 6),
    ];
    let mut tr = Trie::new();
    for (p, m, h) in routes.iter() {
        tr.insert(p, *m, *h);
    }
    for (p, m, h) in routes.iter() {
        assert_eq!(tr.get(p, *m), Some(*h));
    }
    assert_eq!(tr.get("abc", Method::GET), None);
    assert_eq!(tr.get("", Method::GET), None);
}
