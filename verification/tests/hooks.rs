use wh_server::{get_route_from_key, hash_int};
use wh_server::hooks::{
    create_webhook, create_webhook_with_key, delete_webhook, delete_webhooks, get_user_webhooks, verify_user, Create,
    CreateOutcome, Delete, DeleteOutcome, Deletes, DeletesOutcome, Fault, Response, User,
};
use wh_server::passwords::hash_new;
use wh_server::route::{parse_routes, route_line, Route};

fn user_route(key: &str, url: &str, username: &str, password: &str) -> Route {
    let (hash, salt) = hash_new(password.to_string()).unwrap();
    Route { key: key.to_string(), url: url.to_string(), username: username.to_string(), hash, salt }
}

fn user(name: &str, password: &str) -> User {
    User { username: name.to_string(), password: password.to_string() }
}

fn file(routes: &[Route]) -> String {
    routes.iter().map(route_line).collect()
}

#[test]
fn verify_user_cases() {
    let rs = vec![user_route("k1", "u1", "alice", "pw"), user_route("k2", "u2", "alice", "other")];
    match verify_user(&rs, &user("alice", "pw")).unwrap() {
        Response::Accepted(m) => assert_eq!(m, ""),
        r => panic!("{:?}", r),
    }
    // the first route of the user decides
    match verify_user(&rs, &user("alice", "other")).unwrap() {
        Response::BadRequest(m) => assert_eq!(m, "Invalid Password"),
        r => panic!("{:?}", r),
    }
    match verify_user(&rs, &user("nobody", "x")).unwrap() {
        Response::Accepted(m) => assert_eq!(m, ""),
        r => panic!("{:?}", r),
    }
}

#[test]
fn verify_user_bad_salt_is_a_fault() {
    let rs = vec![Route {
        key: String::from("k"),
        url: String::from("u"),
        username: String::from("alice"),
        hash: String::from("h"),
        salt: String::from("x"),
    }];
    match verify_user(&rs, &user("alice", "pw")) {
        Err(Fault::Hashing(m)) => assert!(m.starts_with("Error recognizing salt | ")),
        r => panic!("{:?}", r),
    }
}

#[test]
fn get_user_webhooks_lists_from_first_accepted_route() {
    let rs = vec![
        user_route("k0", "u0", "bob", "pw"),
        user_route("k1", "u1", "alice", "wrong"),
        user_route("k2", "u2", "alice", "pw"),
        user_route("k3", "u3", "alice", "anything"),
    ];
    let v = get_user_webhooks(&rs, &user("alice", "pw")).unwrap();
    let keys: Vec<&str> = v.iter().map(|r| r.key.as_str()).collect();
    assert_eq!(keys, vec!["k2", "k3"]);
    assert_eq!(v[0].url, "u2");
    let v = get_user_webhooks(&rs, &user("alice", "nope")).unwrap();
    assert!(v.is_empty());
    let v = get_user_webhooks(&rs, &user("carol", "pw")).unwrap();
    assert!(v.is_empty());
}

#[test]
fn create_webhook_new_user() {
    let data = Create {
        url: String::from("http://t"),
        username: String::from("dave"),
        password: String::from("pw"),
    };
    match create_webhook("", &data).unwrap() {
        CreateOutcome::Created(r) => {
            assert_eq!(r.key, hash_int(1));
            assert_eq!(r.url, "http://t");
            assert_eq!(r.username, "dave");
            assert_eq!(r.salt.len(), 22);
            // the new route lets its owner in and is listed for them
            let contents = route_line(&r);
            let rs = parse_routes(&contents).unwrap();
            assert!(matches!(verify_user(&rs, &user("dave", "pw")).unwrap(), Response::Accepted(_)));
            let v = get_user_webhooks(&rs, &user("dave", "pw")).unwrap();
            assert_eq!(v.len(), 1);
            assert_eq!(v[0].key, r.key);
        },
        o => panic!("{:?}", o),
    }
}

#[test]
fn create_webhook_existing_user() {
    let existing = user_route("10", "http://a", "erin", "pw");
    let contents = file(&[existing.clone()]);
    let data = Create {
        url: String::from("http://b"),
        username: String::from("erin"),
        password: String::from("pw"),
    };
    match create_webhook(&contents, &data).unwrap() {
        CreateOutcome::Created(r) => {
            assert_eq!(r.key, hash_int(16));
            assert_eq!(r.hash, existing.hash);
            assert_eq!(r.salt, existing.salt);
            assert_eq!(r.url, "http://b");
        },
        o => panic!("{:?}", o),
    }
    let bad = Create { password: String::from("wrong"), ..data.clone() };
    match create_webhook(&contents, &bad).unwrap() {
        CreateOutcome::Rejected(m) => assert_eq!(m, "Invalid Password"),
        o => panic!("{:?}", o),
    }
}

#[test]
fn create_webhook_errors() {
    let data = Create {
        url: String::from("http://b"),
        username: String::from("erin"),
        password: String::from("pw"),
    };
    match create_webhook("not-hex, u, h, s, n\n", &data).unwrap() {
        CreateOutcome::Rejected(m) => assert_eq!(m, "Internal Error"),
        o => panic!("{:?}", o),
    }
    assert!(matches!(create_webhook("bad line\n1, u, h, s, n\n", &data), Err(Fault::MalformedRoutes)));
}

#[test]
fn delete_webhook_cases() {
    let a = user_route("ka", "ua", "frank", "pw");
    let b = user_route("kb", "ub", "frank", "pw");
    let c = user_route("kc", "uc", "gina", "pw2");
    let contents = file(&[a.clone(), b.clone(), c.clone()]);
    let del = |key: &str, pw: &str| Delete {
        key: key.to_string(),
        username: String::from("frank"),
        password: pw.to_string(),
    };
    match delete_webhook(&contents, &del("kb", "pw")).unwrap() {
        DeleteOutcome::Deleted(out) => {
            assert_eq!(out, file(&[a.clone(), c.clone()]));
            let rs = parse_routes(&out).unwrap();
            assert_eq!(rs.len(), 2);
            assert!(rs.iter().all(|r| r.key != "kb"));
        },
        o => panic!("{:?}", o),
    }
    match delete_webhook(&contents, &del("kb", "bad")).unwrap() {
        DeleteOutcome::Rejected(m) => assert_eq!(m, "Invalid Password"),
        o => panic!("{:?}", o),
    }
    match delete_webhook(&contents, &del("kz", "pw")).unwrap() {
        DeleteOutcome::Rejected(m) => assert_eq!(m, "Key not found"),
        o => panic!("{:?}", o),
    }
    // a second route with the same key refuses the request
    let twice = file(&[a.clone(), a.clone()]);
    match delete_webhook(&twice, &del("ka", "pw")).unwrap() {
        DeleteOutcome::Rejected(m) => assert_eq!(m, "Invalid Password"),
        o => panic!("{:?}", o),
    }
    assert!(matches!(
        delete_webhook("oops\n", &del("ka", "pw")),
        Err(Fault::MalformedRoutes)
    ));
}

#[test]
fn delete_webhooks_cases() {
    let a = user_route("ka", "ua", "hal", "pw");
    let b = user_route("kb", "ub", "hal", "pw");
    let c = user_route("kc", "uc", "ivy", "pw");
    let contents = file(&[a.clone(), b.clone(), c.clone()]);
    let data = Deletes {
        keys: vec![String::from("kb"), String::from("ka"), String::from("kx")],
        username: String::from("hal"),
        password: String::from("pw"),
    };
    match delete_webhooks(&contents, data).unwrap() {
        DeletesOutcome::Removed(out, found) => {
            assert_eq!(out, file(&[c.clone()]));
            assert_eq!(found, vec![String::from("ka"), String::from("kb")]);
        },
        o => panic!("{:?}", o),
    }
    let bad = Deletes {
        keys: vec![String::from("ka")],
        username: String::from("hal"),
        password: String::from("nope"),
    };
    match delete_webhooks(&contents, bad).unwrap() {
        DeletesOutcome::Rejected(m) => assert_eq!(m, "Invalid Password"),
        o => panic!("{:?}", o),
    }
    // nothing to delete: the contents are kept
    let none = Deletes {
        keys: vec![String::from("kc")],
        username: String::from("hal"),
        password: String::from("pw"),
    };
    match delete_webhooks(&contents, none).unwrap() {
        DeletesOutcome::Removed(out, found) => {
            assert_eq!(out, contents);
            assert!(found.is_empty());
        },
        o => panic!("{:?}", o),
    }
}

#[test]
fn repeated_delete_webhooks_changes_nothing() {
    let a = user_route("ka", "ua", "jo", "pw");
    let b = user_route("kb", "ub", "kim", "pw");
    let contents = file(&[a.clone(), b.clone()]);
    let data = || Deletes {
        keys: vec![String::from("ka")],
        username: String::from("jo"),
        password: String::from("pw"),
    };
    let once = match delete_webhooks(&contents, data()).unwrap() {
        DeletesOutcome::Removed(out, found) => {
            assert_eq!(found, vec![String::from("ka")]);
            out
        },
        o => panic!("{:?}", o),
    };
    match delete_webhooks(&once, data()).unwrap() {
        DeletesOutcome::Removed(out, found) => {
            assert_eq!(out, once);
            assert!(found.is_empty());
        },
        o => panic!("{:?}", o),
    }
}

#[test]
fn created_webhook_serves_existing_owner() {
    let existing = user_route("10", "http://a", "lee", "pw");
    let contents = file(&[existing]);
    let data = Create {
        url: String::from("http://new"),
        username: String::from("lee"),
        password: String::from("pw"),
    };
    let r = match create_webhook(&contents, &data).unwrap() {
        CreateOutcome::Created(r) => r,
        o => panic!("{:?}", o),
    };
    let written = format!("{}{}", contents, route_line(&r));
    let rs = parse_routes(&written).unwrap();
    assert_eq!(get_route_from_key(&rs, &r.key), Ok(String::from("http://new")));
    match verify_user(&rs, &user("lee", "pw")).unwrap() {
        Response::Accepted(m) => assert_eq!(m, ""),
        o => panic!("{:?}", o),
    }
}

#[test]
fn created_key_routes_for_any_name_without_line_break() {
    let contents = file(&[user_route("10", "http://a", "max", "pw")]);
    for name in ["new, user", "carriage\r"] {
        let data = Create {
            url: String::from("http://dest"),
            username: String::from(name),
            password: String::from("pw"),
        };
        let r = match create_webhook(&contents, &data).unwrap() {
            CreateOutcome::Created(r) => r,
            o => panic!("{:?}", o),
        };
        let written = format!("{}{}", contents, route_line(&r));
        let rs = parse_routes(&written).unwrap();
        assert_eq!(rs.len(), 2);
        assert_eq!(get_route_from_key(&rs, &r.key), Ok(String::from("http://dest")));
    }
}

#[test]
fn create_webhook_with_key_uses_the_given_key() {
    let existing = user_route("10", "http://a", "nia", "pw");
    let contents = file(&[existing.clone()]);
    for name in ["nia", "omar"] {
        let data = Create {
            url: String::from("http://k"),
            username: String::from(name),
            password: String::from("pw"),
        };
        match create_webhook_with_key(&contents, &data, String::from("beef")).unwrap() {
            CreateOutcome::Created(r) => {
                assert_eq!(r.key, "beef");
                assert_eq!(r.url, "http://k");
                assert_eq!(r.username, name);
            },
            o => panic!("{:?}", o),
        }
    }
    let data = Create {
        url: String::from("http://k"),
        username: String::from("nia"),
        password: String::from("pw"),
    };
    assert!(matches!(
        create_webhook_with_key("bad\n", &data, String::from("beef")),
        Err(Fault::MalformedRoutes)
    ));
    // the key that create_webhook hands out is the one get_next_key makes
    match create_webhook(&contents, &data).unwrap() {
        CreateOutcome::Created(r) => assert_eq!(r.key, hash_int(16)),
        o => panic!("{:?}", o),
    }
}

#[test]
fn repeated_delete_webhooks_with_a_deleted_cr_line() {
    let a = user_route("ka", "ua", "pat", "pw");
    let b = user_route("kb", "ub", "quin", "pw");
    // the deleted line ends with '\r' before its line break
    let contents = format!("{}{}", route_line(&a).replace('\n', "\r\n"), route_line(&b));
    let data = || Deletes {
        keys: vec![String::from("ka")],
        username: String::from("pat"),
        password: String::from("pw"),
    };
    let once = match delete_webhooks(&contents, data()).unwrap() {
        DeletesOutcome::Removed(out, found) => {
            assert_eq!(found, vec![String::from("ka")]);
            assert_eq!(out, route_line(&b));
            out
        },
        o => panic!("{:?}", o),
    };
    match delete_webhooks(&once, data()).unwrap() {
        DeletesOutcome::Removed(out, found) => {
            assert_eq!(out, once);
            assert!(found.is_empty());
        },
        o => panic!("{:?}", o),
    }
}

#[test]
fn created_key_routes_under_a_name_with_a_line_break() {
    let contents = file(&[user_route("10", "http://a", "rae", "pw")]);
    // the part of the name after the line break reads as a route of its own
    let data = Create {
        url: String::from("http://dest"),
        username: String::from("sam\n1, u, h, s, n"),
        password: String::from("pw"),
    };
    let r = match create_webhook(&contents, &data).unwrap() {
        CreateOutcome::Created(r) => r,
        o => panic!("{:?}", o),
    };
    let written = format!("{}{}", contents, route_line(&r));
    let rs = parse_routes(&written).unwrap();
    assert_eq!(rs.len(), 3);
    assert_eq!(get_route_from_key(&rs, &r.key), Ok(String::from("http://dest")));
    // the owner's name does not read back, so the owner is not found
    match verify_user(&rs, &user("sam\n1, u, h, s, n", "pw")).unwrap() {
        Response::Accepted(m) => assert_eq!(m, ""),
        o => panic!("{:?}", o),
    }
}

#[test]
fn owner_logs_in_after_writing_to_an_open_last_line() {
    let existing = user_route("10", "http://a", "tia", "pw");
    let line = route_line(&existing);
    let open = line.trim_end_matches('\n').to_string();
    for name in ["tia", "uma"] {
        let data = Create {
            url: String::from("http://b"),
            username: String::from(name),
            password: String::from("pw"),
        };
        let r = match create_webhook(&open, &data).unwrap() {
            CreateOutcome::Created(r) => r,
            o => panic!("{:?}", o),
        };
        let written = format!("{}{}", open, route_line(&r));
        let rs = parse_routes(&written).unwrap();
        assert_eq!(rs.len(), 1);
        // the written line is glued to the last one, whose name gains the key
        assert_eq!(rs[0].username, format!("tia{}", r.key));
        match verify_user(&rs, &user(name, "pw")).unwrap() {
            Response::Accepted(m) => assert_eq!(m, ""),
            o => panic!("{:?}", o),
        }
    }
}
