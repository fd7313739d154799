use wh_server::get_route_from_key;
use wh_server::route::{parse_routes, route_line, Route};

fn route(key: &str, url: &str, username: &str) -> Route {
    Route {
        key: key.to_string(),
        url: url.to_string(),
        username: username.to_string(),
        hash: String::from("hashvalue"),
        salt: String::from("saltvalue"),
    }
}

#[test]
fn route_line_format() {
    let r = route("1a", "http://example.com/hook", "alice");
    assert_eq!(route_line(&r), "1a, http://example.com/hook, hashvalue, saltvalue, alice\n");
}

#[test]
fn parse_routes_fields_in_file_order() {
    let rs = parse_routes("k1, u1, h1, s1, n1\nk2, u2, h2, s2, n2").unwrap();
    assert_eq!(rs.len(), 2);
    assert_eq!(rs[0].key, "k1");
    assert_eq!(rs[0].url, "u1");
    assert_eq!(rs[0].hash, "h1");
    assert_eq!(rs[0].salt, "s1");
    assert_eq!(rs[0].username, "n1");
    assert_eq!(rs[1].username, "n2");
}

#[test]
fn parse_routes_edge_cases() {
    assert_eq!(parse_routes("").unwrap().len(), 0);
    // CRLF line endings
    let rs = parse_routes("k, u, h, s, n\r\n").unwrap();
    assert_eq!(rs[0].username, "n");
    // extra fields are ignored
    let rs = parse_routes("k, u, h, s, n, extra\n").unwrap();
    assert_eq!(rs[0].username, "n");
    // a comma not followed by a space does not separate
    let rs = parse_routes("k,x, u, h, s, n\n").unwrap();
    assert_eq!(rs[0].key, "k,x");
    // too few fields
    assert!(parse_routes("k, u, h, s\n").is_none());
    assert!(parse_routes("k, u, h, s, n\n\n").is_none());
    // non-ASCII text
    let rs = parse_routes("κλειδί, ü, h, s, ñame\n").unwrap();
    assert_eq!(rs[0].key, "κλειδί");
    assert_eq!(rs[0].username, "ñame");
}

#[test]
fn written_route_reads_back() {
    let mut contents = String::from("k1, u1, h1, s1, n1\n");
    let r = route("k2", "http://b", "bob");
    contents.push_str(&route_line(&r));
    let rs = parse_routes(&contents).unwrap();
    assert_eq!(rs.len(), 2);
    assert_eq!(rs[1].key, "k2");
    assert_eq!(rs[1].url, "http://b");
    assert_eq!(rs[1].username, "bob");
    assert_eq!(rs[1].hash, "hashvalue");
    assert_eq!(rs[1].salt, "saltvalue");
    assert_eq!(get_route_from_key(&rs, &String::from("k2")), Ok(String::from("http://b")));
}

#[test]
fn get_route_from_key_first_match() {
    let rs = vec![route("a", "u1", "x"), route("b", "u2", "y"), route("a", "u3", "z")];
    assert_eq!(get_route_from_key(&rs, &String::from("a")), Ok(String::from("u1")));
    assert_eq!(get_route_from_key(&rs, &String::from("b")), Ok(String::from("u2")));
    assert_eq!(get_route_from_key(&rs, &String::from("c")), Err(0));
    assert_eq!(get_route_from_key(&Vec::new(), &String::from("a")), Err(0));
}
