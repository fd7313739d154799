use std::collections::hash_map::DefaultHasher;
use std::hash::{Hash, Hasher};
use wh_server::hash_int;
use wh_server::keys::{format_hex, get_next_key, next_key_seed, parse_hex};
use wh_server::route::{route_line, Route};

fn chars(s: &str) -> Vec<char> {
    s.chars().collect()
}

#[test]
fn format_hex_values() {
    assert_eq!(format_hex(0), "0");
    assert_eq!(format_hex(9), "9");
    assert_eq!(format_hex(10), "a");
    assert_eq!(format_hex(255), "ff");
    assert_eq!(format_hex(0x1234abcd), "1234abcd");
    assert_eq!(format_hex(u64::MAX), "ffffffffffffffff");
    for n in [1u64, 16, 4095, 123456789] {
        assert_eq!(format_hex(n), format!("{:x}", n));
    }
}

#[test]
fn parse_hex_like_from_str_radix() {
    for s in ["ff", "0", "+1A", "1aB", "", "+", "-1", "g", "12 ", "1ffffffffffffffff", "ffffffff"] {
        assert_eq!(parse_hex(&chars(s)), usize::from_str_radix(s, 16).ok(), "{:?}", s);
    }
    assert_eq!(parse_hex(&chars("ff")), Some(255));
    assert_eq!(parse_hex(&chars("+1A")), Some(26));
    assert_eq!(parse_hex(&chars("")), None);
    assert_eq!(parse_hex(&chars("-1")), None);
}

#[test]
fn hex_round_trip() {
    for n in [0u64, 1, 15, 16, 0xdeadbeef, usize::MAX as u64] {
        assert_eq!(parse_hex(&chars(&format_hex(n))), Some(n as usize));
    }
}

#[test]
fn hash_int_matches_default_hasher() {
    for v in [0usize, 1, 2, 12345] {
        let mut h = DefaultHasher::new();
        v.hash(&mut h);
        assert_eq!(hash_int(v), format!("{:x}", h.finish()));
    }
    assert_eq!(hash_int(7), hash_int(7));
}

#[test]
fn next_key_seed_cases() {
    assert_eq!(next_key_seed(""), Ok(1));
    assert_eq!(next_key_seed("ff, u, h, s, n\n"), Ok(255));
    assert_eq!(next_key_seed("1, u, h, s, n\nab, u, h, s, n"), Ok(0xab));
    assert_eq!(next_key_seed("zz, u, h, s, n\n"), Err(3));
    assert_eq!(next_key_seed("ff\r\n"), Ok(255));
    assert_eq!(next_key_seed("\n"), Err(3));
}

#[test]
fn get_next_key_cases() {
    assert_eq!(get_next_key(""), Ok(hash_int(1)));
    assert_eq!(get_next_key("10, u, h, s, n\n"), Ok(hash_int(16)));
    assert_eq!(get_next_key("x, u, h, s, n\n"), Err(3));
}

#[test]
fn next_key_after_written_route() {
    let key = hash_int(1);
    let r = Route {
        key: key.clone(),
        url: String::from("http://x"),
        username: String::from("bob"),
        hash: String::from("h"),
        salt: String::from("s"),
    };
    let contents = route_line(&r);
    let seed = next_key_seed(&contents).unwrap();
    assert_eq!(format_hex(seed as u64), key);
}

#[test]
fn next_key_seed_after_any_keyed_line() {
    let contents = format!("{}, {}\n", hash_int(31), "anything, at all");
    assert_eq!(next_key_seed(&contents), Ok(parse_hex(&chars(&hash_int(31))).unwrap()));
}
