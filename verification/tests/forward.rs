use wh_server::forward::{forward_request, HeaderList, Method};
use wh_server::route::Route;

fn routes() -> Vec<Route> {
    vec![Route {
        key: String::from("abc"),
        url: String::from("http://target/x"),
        username: String::from("u"),
        hash: String::from("h"),
        salt: String::from("s"),
    }]
}

#[test]
fn header_list_push_and_get() {
    let mut h = HeaderList::new();
    assert_eq!(h.len(), 0);
    h.push(String::from("Content-Type"), String::from("text/plain"));
    h.push(String::from("X-A"), String::from("1"));
    assert_eq!(h.len(), 2);
    let (n, v) = h.get(1);
    assert_eq!(n, "X-A");
    assert_eq!(v, "1");
}

#[test]
fn forward_request_to_route_url() {
    let mut h = HeaderList::new();
    h.push(String::from("A"), String::from("1"));
    h.push(String::from("B"), String::from("2"));
    let f = forward_request(&routes(), &String::from("abc"), Method::Post, String::from("body"), &h)
        .unwrap();
    assert_eq!(f.method, Method::Post);
    assert_eq!(f.url, "http://target/x");
    assert_eq!(f.body, "body");
    assert_eq!(
        f.headers,
        vec![(String::from("A"), String::from("1")), (String::from("B"), String::from("2"))]
    );
}

#[test]
fn forward_request_unknown_key() {
    let h = HeaderList::new();
    let r = forward_request(&routes(), &String::from("nope"), Method::Get, String::new(), &h);
    assert_eq!(r.unwrap_err(), "Invalid Webhook Key");
}
