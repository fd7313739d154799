//! What the webhook service decides for a user: listing a user's webhooks,
//! checking a password, creating a webhook and deleting webhooks.
//!
//! Where the service cannot go on (a password hash that cannot be computed,
//! a routes file with a line that is not a route) the functions here return
//! a [`Fault`]; the server stops the request there.
use vstd::prelude::*;
use crate::keys::{get_next_key, is_hex_key, key_of, key_seed, lemma_hex_key_clean};
use crate::passwords::{
    all_b64, b64_char, fresh_hash, hash_error_text, hash_new, hash_old, hash_old_result,
    lemma_hash_old_reproduces_hash_new, salt_char, salt_string_valid, stored_hash,
};
use crate::route::{
    lemma_route_names_no_break, lemma_routes_append, lemma_routes_append_line,
    lemma_routes_append_merged, lemma_routes_append_readable, lemma_written_route_found,
    line_body, line_of, lookup_url, parse_line, parse_route_line, parse_routes,
    route_is_readable, route_key_readable, route_views, routes_of, Route, RouteView,
};
use crate::text::{
    append_chars, at_line_start, chars_of, field_sep_at, has_field_sep, lemma_lines_append_line,
    lemma_lines_concat, lemma_lines_no_break, lines, push_char, split_fields, split_lines,
    starts_with, string_views, strip_cr, views,
};
use vstd::utf8::encode_utf8;

verus! {

/// A user's credentials.
#[derive(Debug, Clone)]
pub struct User {
    pub username: String,
    pub password: String,
}

/// A request to create a webhook that forwards to `url`.
#[derive(Debug, Clone)]
pub struct Create {
    pub url: String,
    pub username: String,
    pub password: String,
}

/// A request to delete the webhook with key `key`.
#[derive(Debug, Clone)]
pub struct Delete {
    pub key: String,
    pub username: String,
    pub password: String,
}

/// A request to delete the webhooks with the keys in `keys`.
#[derive(Debug, Clone)]
pub struct Deletes {
    pub keys: Vec<String>,
    pub username: String,
    pub password: String,
}

/// The part of a route that its owner is shown.
#[derive(Debug, Clone)]
pub struct RouteVisible {
    pub key: String,
    pub url: String,
}

/// A reply of the service: accepted, or a bad request, each with a message.
#[derive(Debug)]
pub enum Response {
    Accepted(String),
    BadRequest(String),
}

/// Where the service cannot complete a request.
#[derive(Debug)]
pub enum Fault {
    /// A password hash could not be computed; the message says why.
    Hashing(String),
    /// A line of the routes file is not a route.
    MalformedRoutes,
}

/// The first route of user `u`, if any.
pub open spec fn first_of_user(rs: Seq<RouteView>, u: Seq<char>) -> Option<RouteView>
    decreases rs.len(),
{
    if rs.len() == 0 {
        None
    } else {
        match first_of_user(rs.drop_last(), u) {
            Some(r) => Some(r),
            None => if rs.last().username == u {
                Some(rs.last())
            } else {
                None
            },
        }
    }
}

/// The outcome of checking a password.
pub enum Verdict {
    Accepted,
    InvalidPassword,
    HashFailed,
}

/// The text of the failure to hash `p` under the salt of the first route
/// of user `u`, if that hashing fails.
pub open spec fn failed_check_text(rs: Seq<RouteView>, u: Seq<char>, p: Seq<char>) -> Option<Seq<char>> {
    match first_of_user(rs, u) {
        Some(r) => match hash_old_result(p, r.salt) {
            Err(e) => Some(e),
            Ok(_) => None,
        },
        None => None,
    }
}

/// Checking password `p` of user `u`: the user's first route decides; a user
/// without routes is accepted.
pub open spec fn verify_outcome(rs: Seq<RouteView>, u: Seq<char>, p: Seq<char>) -> Verdict {
    match first_of_user(rs, u) {
        None => Verdict::Accepted,
        Some(r) => match stored_hash(p, r.salt) {
            None => Verdict::HashFailed,
            Some(h) => if h == r.hash {
                Verdict::Accepted
            } else {
                Verdict::InvalidPassword
            },
        },
    }
}

/// Listing the webhooks of user `u` with password `p`, route by route: the
/// password is checked against each of the user's routes until one accepts
/// it; that route and every later route of the user are listed. The state is
/// whether the password was accepted and the list so far; `None` where a
/// hash could not be computed.
pub open spec fn hooks_run(rs: Seq<RouteView>, u: Seq<char>, p: Seq<char>) -> Option<
    (bool, Seq<(Seq<char>, Seq<char>)>),
>
    decreases rs.len(),
{
    if rs.len() == 0 {
        Some((false, Seq::empty()))
    } else {
        match hooks_run(rs.drop_last(), u, p) {
            None => None,
            Some((accepted, out)) => {
                let r = rs.last();
                if r.username != u {
                    Some((accepted, out))
                } else if accepted {
                    Some((true, out.push((r.key, r.url))))
                } else {
                    match stored_hash(p, r.salt) {
                        None => None,
                        Some(h) => if h == r.hash {
                            Some((true, out.push((r.key, r.url))))
                        } else {
                            Some((false, out))
                        },
                    }
                }
            },
        }
    }
}

/// The key and URL of each visible route.
pub open spec fn visible_views(v: Seq<RouteVisible>) -> Seq<(Seq<char>, Seq<char>)> {
    v.map_values(|r: RouteVisible| (r.key@, r.url@))
}

/// Checks the password of a user: `Accepted("")` when the user's first route
/// holds the hash of the password under its salt, or the user has no route;
/// `BadRequest("Invalid Password")` when it holds another hash.
pub fn verify_user(routes: &Vec<Route>, data: &User) -> (r: Result<Response, Fault>)
    ensures
        match verify_outcome(route_views(routes@), data.username@, data.password@) {
            Verdict::Accepted => r matches Ok(Response::Accepted(m)) && m@ == Seq::<char>::empty(),
            Verdict::InvalidPassword => r matches Ok(Response::BadRequest(m)) && m@
                == "Invalid Password"@,
            Verdict::HashFailed => (r matches Err(Fault::Hashing(m)) && hash_error_text(m@)
                && Some(m@) == failed_check_text(route_views(routes@), data.username@, data.password@)),
        },
{
    match find_user(routes, &data.username) {
        None => Ok(Response::Accepted(String::new())),
        Some(i) => {
            let route = &routes[i];
            let hash = match hash_old(data.password.clone(), route.salt.clone()) {
                Ok(h) => h,
                Err(m) => {
                    return Err(Fault::Hashing(m));
                },
            };
            if hash != route.hash {
                return Ok(Response::BadRequest(String::from_str("Invalid Password")));
            }
            Ok(Response::Accepted(String::new()))
        },
    }
}

/// The position of the first route of user `username`.
fn find_user(routes: &Vec<Route>, username: &String) -> (r: Option<usize>)
    ensures
        match first_of_user(route_views(routes@), username@) {
            Some(rt) => r matches Some(i) && i < routes@.len() && routes@[i as int]@ == rt,
            None => r is None,
        },
{
    let ghost rs = route_views(routes@);
    let mut i: usize = 0;
    while i < routes.len()
        invariant
            rs == route_views(routes@),
            i <= routes.len(),
            first_of_user(rs.take(i as int), username@) is None,
        decreases routes.len() - i,
    {
        assert(rs.take(i + 1).drop_last() =~= rs.take(i as int));
        if routes[i].username == *username {
            assert(first_of_user(rs.take(i + 1), username@) == Some(rs[i as int]));
            proof {
                lemma_first_of_user_prefix(rs, i + 1, username@);
            }
            return Some(i);
        }
        i += 1;
    }
    assert(rs.take(routes.len() as int) =~= rs);
    None
}

/// A user found in a prefix is the first user of the whole sequence.
proof fn lemma_first_of_user_prefix(rs: Seq<RouteView>, n: int, u: Seq<char>)
    requires
        0 <= n <= rs.len(),
        first_of_user(rs.take(n), u) is Some,
    ensures
        first_of_user(rs, u) == first_of_user(rs.take(n), u),
    decreases rs.len() - n,
{
    if n < rs.len() {
        assert(rs.take(n + 1).drop_last() =~= rs.take(n));
        lemma_first_of_user_prefix(rs, n + 1, u);
    } else {
        assert(rs.take(n) =~= rs);
    }
}

/// Once a hash could not be computed, the listing stays failed.
proof fn lemma_hooks_stuck(rs: Seq<RouteView>, n: int, u: Seq<char>, p: Seq<char>)
    requires
        0 <= n <= rs.len(),
        hooks_run(rs.take(n), u, p) is None,
    ensures
        hooks_run(rs, u, p) is None,
    decreases rs.len() - n,
{
    if n < rs.len() {
        assert(rs.take(n + 1).drop_last() =~= rs.take(n));
        lemma_hooks_stuck(rs, n + 1, u, p);
    } else {
        assert(rs.take(n) =~= rs);
    }
}

/// Whether route `r` is one of user `u`'s and holds the hash of password `p`
/// under its salt.
pub open spec fn password_opens(r: RouteView, u: Seq<char>, p: Seq<char>) -> bool {
    r.username == u && stored_hash(p, r.salt) == Some(r.hash)
}

/// What listing a user's webhooks gives, where it does not fail: nothing
/// when no route of the user holds the password's hash, else the key and
/// URL of every route of the user from the first one that does on, in
/// order, whatever other users' routes lie between.
pub proof fn lemma_listing_from_first_opening_route(
    rs: Seq<RouteView>,
    u: Seq<char>,
    p: Seq<char>,
    n: int,
)
    requires
        0 <= n <= rs.len(),
        hooks_run(rs.take(n), u, p) is Some,
    ensures
        ({
            let (accepted, out) = hooks_run(rs.take(n), u, p)->0;
            &&& accepted <==> exists|j: int| 0 <= j < n && #[trigger] password_opens(rs[j], u, p)
            &&& !accepted ==> out.len() == 0
            &&& forall|j: int|
                0 <= j < n && #[trigger] password_opens(rs[j], u, p) && (forall|i: int|
                    0 <= i < j ==> !password_opens(#[trigger] rs[i], u, p)) ==> out == user_pairs(
                    rs.subrange(j, n),
                    u,
                )
        }),
    decreases n,
{
    let pre = rs.take(n);
    if n == 0 {
        assert(pre =~= Seq::<RouteView>::empty());
    } else {
        let prev = rs.take(n - 1);
        assert(pre.drop_last() =~= prev);
        assert(pre.last() == rs[n - 1]);
        assert(hooks_run(prev, u, p) is Some);
        lemma_listing_from_first_opening_route(rs, u, p, n - 1);
        let (acc0, out0) = hooks_run(prev, u, p)->0;
        let (acc, out) = hooks_run(pre, u, p)->0;
        let r = rs[n - 1];
        assert forall|j: int|
            0 <= j < n - 1 implies #[trigger] rs.subrange(j, n).drop_last() == rs.subrange(
            j,
            n - 1,
        ) && rs.subrange(j, n).last() == r by {
            assert(rs.subrange(j, n).drop_last() =~= rs.subrange(j, n - 1));
        }
        if r.username != u {
            assert(!password_opens(r, u, p));
            assert(acc == acc0 && out == out0);
            assert(acc <==> exists|j: int| 0 <= j < n && #[trigger] password_opens(rs[j], u, p)) by {
                if acc {
                    let j = choose|j: int| 0 <= j < n - 1 && #[trigger] password_opens(rs[j], u, p);
                    assert(password_opens(rs[j], u, p));
                }
            }
            assert forall|j: int|
                0 <= j < n && #[trigger] password_opens(rs[j], u, p) && (forall|i: int|
                    0 <= i < j ==> !password_opens(#[trigger] rs[i], u, p)) implies out == user_pairs(
                rs.subrange(j, n),
                u,
            ) by {
                assert(j < n - 1);
                assert(rs.subrange(j, n).drop_last() == rs.subrange(j, n - 1));
            }
        } else if acc0 {
            let j0 = choose|j: int| 0 <= j < n - 1 && #[trigger] password_opens(rs[j], u, p);
            assert(password_opens(rs[j0], u, p));
            assert forall|j: int|
                0 <= j < n && #[trigger] password_opens(rs[j], u, p) && (forall|i: int|
                    0 <= i < j ==> !password_opens(#[trigger] rs[i], u, p)) implies out == user_pairs(
                rs.subrange(j, n),
                u,
            ) by {
                if j == n - 1 {
                    assert(!password_opens(rs[j0], u, p));
                }
                assert(rs.subrange(j, n).drop_last() == rs.subrange(j, n - 1));
            }
        } else {
            assert forall|j: int| 0 <= j < n - 1 implies !password_opens(#[trigger] rs[j], u, p) by {}
            if password_opens(r, u, p) {
                assert(acc && out == out0.push((r.key, r.url)));
                assert forall|j: int|
                    0 <= j < n && #[trigger] password_opens(rs[j], u, p) && (forall|i: int|
                        0 <= i < j ==> !password_opens(#[trigger] rs[i], u, p)) implies out
                    == user_pairs(rs.subrange(j, n), u) by {
                    assert(j == n - 1);
                    let sub = rs.subrange(j, n);
                    assert(sub.drop_last() =~= Seq::<RouteView>::empty());
                    assert(sub.last() == r);
                    assert(user_pairs(sub.drop_last(), u) =~= Seq::<(Seq<char>, Seq<char>)>::empty());
                    assert(out0 =~= Seq::<(Seq<char>, Seq<char>)>::empty());
                }
            } else {
                assert(!acc && out == out0);
            }
        }
    }
}

/// The webhooks of a user (see [`hooks_run`]); `Fault::Hashing` where a
/// hash could not be computed.
pub fn get_user_webhooks(routes: &Vec<Route>, data: &User) -> (r: Result<Vec<RouteVisible>, Fault>)
    ensures
        match hooks_run(route_views(routes@), data.username@, data.password@) {
            Some((_, out)) => r matches Ok(v) && visible_views(v@) == out,
            None => (r matches Err(Fault::Hashing(m)) && hash_error_text(m@)),
        },
        r matches Ok(v) ==> forall|i: int|
            0 <= i < v.len() ==> user_pairs(route_views(routes@), data.username@).contains(
                #[trigger] visible_views(v@)[i],
            ),
        r matches Ok(v) ==> forall|j: int|
            0 <= j < routes@.len() && #[trigger] password_opens(
                routes@[j]@,
                data.username@,
                data.password@,
            ) && (forall|i: int|
                0 <= i < j ==> !password_opens(
                    #[trigger] routes@[i]@,
                    data.username@,
                    data.password@,
                )) ==> visible_views(v@) == user_pairs(
                route_views(routes@).subrange(j, routes@.len() as int),
                data.username@,
            ),
        r matches Ok(v) ==> (forall|j: int|
            0 <= j < routes@.len() ==> !#[trigger] password_opens(
                routes@[j]@,
                data.username@,
                data.password@,
            )) ==> v@.len() == 0,
{
    let ghost rs = route_views(routes@);
    let mut user_routes: Vec<RouteVisible> = Vec::new();
    let mut is_user = false;
    let mut i: usize = 0;
    assert(rs.take(0) =~= Seq::<RouteView>::empty());
    assert(visible_views(user_routes@) =~= Seq::<(Seq<char>, Seq<char>)>::empty());
    while i < routes.len()
        invariant
            rs == route_views(routes@),
            i <= routes.len(),
            hooks_run(rs.take(i as int), data.username@, data.password@) == Some(
                (is_user, visible_views(user_routes@)),
            ),
        decreases routes.len() - i,
    {
        let route = &routes[i];
        assert(rs.take(i + 1).drop_last() =~= rs.take(i as int));
        assert(rs.take(i + 1).last() == route@);
        if route.username == data.username {
            let accepted = if is_user {
                true
            } else {
                match hash_old(data.password.clone(), route.salt.clone()) {
                    Ok(h) => h == route.hash,
                    Err(m) => {
                        proof {
                            lemma_hooks_stuck(rs, i + 1, data.username@, data.password@);
                        }
                        return Err(Fault::Hashing(m));
                    },
                }
            };
            if accepted {
                let ghost before = visible_views(user_routes@);
                user_routes.push(RouteVisible { key: route.key.clone(), url: route.url.clone() });
                assert(visible_views(user_routes@) =~= before.push((route.key@, route.url@)));
                is_user = true;
            }
        }
        i += 1;
    }
    assert(rs.take(routes.len() as int) =~= rs);
    proof {
        lemma_listed_hooks_belong_to_user(rs, data.username@, data.password@);
        let u = data.username@;
        let p = data.password@;
        let n = rs.len() as int;
        lemma_listing_from_first_opening_route(rs, u, p, n);
        assert(rs.take(n) =~= rs);
        let out = visible_views(user_routes@);
        assert forall|j: int|
            0 <= j < routes@.len() && #[trigger] password_opens(routes@[j]@, u, p) && (forall|i: int|
                0 <= i < j ==> !password_opens(#[trigger] routes@[i]@, u, p)) implies out
            == user_pairs(rs.subrange(j, n), u) by {
            assert(rs[j] == routes@[j]@);
            assert forall|i: int| 0 <= i < j implies !password_opens(#[trigger] rs[i], u, p) by {
                assert(rs[i] == routes@[i]@);
            }
        }
        if forall|j: int| 0 <= j < routes@.len() ==> !#[trigger] password_opens(routes@[j]@, u, p) {
            assert forall|j: int| 0 <= j < n implies !#[trigger] password_opens(rs[j], u, p) by {
                assert(rs[j] == routes@[j]@);
            }
        }
    }
    Ok(user_routes)
}

} // verus!

verus! {

/// The outcome of a request to create a webhook: the route to record, or a
/// refusal with its message.
#[derive(Debug)]
pub enum CreateOutcome {
    Created(Route),
    Rejected(String),
}

/// What creating a webhook under the key `key` gives for the routes `rs` of
/// a well-formed routes file: a user with routes must give the password
/// that the user's first route holds, and the new route takes over that
/// route's hash and salt; a new user's route gets a fresh hash and salt,
/// which hashing always gives for a password of at most `0xFFFF_FFFF` UTF-8
/// bytes. The new route has the key `key`.
pub open spec fn create_result(
    rs: Seq<RouteView>,
    url: Seq<char>,
    u: Seq<char>,
    p: Seq<char>,
    key: Seq<char>,
    r: Result<CreateOutcome, Fault>,
) -> bool {
    match first_of_user(rs, u) {
        Some(old) => match hash_old_result(p, old.salt) {
            Err(e) => r matches Err(Fault::Hashing(m)) && m@ == e,
            Ok(h) => if h == old.hash {
                &&& r matches Ok(CreateOutcome::Created(nr))
                &&& nr.key@ == key && nr.url@ == url && nr.username@ == u
                &&& nr.hash@ == old.hash && nr.salt@ == old.salt
                &&& stored_hash(p, nr.salt@) == Some(nr.hash@)
                &&& nr.hash@.len() == 43 && all_b64(nr.hash@)
            } else {
                r matches Ok(CreateOutcome::Rejected(m)) && m@ == "Invalid Password"@
            },
        },
        None => if encode_utf8(p).len() <= 0xFFFF_FFFF {
            &&& r matches Ok(CreateOutcome::Created(nr))
            &&& nr.key@ == key && nr.url@ == url && nr.username@ == u
            &&& fresh_hash(p, nr.hash@, nr.salt@)
        } else {
            r matches Err(Fault::Hashing(m)) && starts_with(m@, "Error hashing password | "@)
        },
    }
}

/// Decides a request to create a webhook under the key `key`, given the
/// contents of the routes file: a fault when a line is not a route, and
/// otherwise as `create_result` says.
pub fn create_webhook_with_key(contents: &str, data: &Create, key: String) -> (r: Result<
    CreateOutcome,
    Fault,
>)
    ensures
        routes_of(contents@) is None ==> r matches Err(Fault::MalformedRoutes),
        routes_of(contents@) is Some ==> create_result(
            routes_of(contents@)->0,
            data.url@,
            data.username@,
            data.password@,
            key@,
            r,
        ),
{
    let routes = match parse_routes(contents) {
        Some(rs) => rs,
        None => {
            return Err(Fault::MalformedRoutes);
        },
    };
    let (hash, salt) = match find_user(&routes, &data.username) {
        Some(i) => {
            let route = &routes[i];
            let hash = match hash_old(data.password.clone(), route.salt.clone()) {
                Ok(h) => h,
                Err(m) => {
                    return Err(Fault::Hashing(m));
                },
            };
            if hash != route.hash {
                return Ok(CreateOutcome::Rejected(String::from_str("Invalid Password")));
            }
            (hash, route.salt.clone())
        },
        None => match hash_new(data.password.clone()) {
            Ok(pair) => pair,
            Err(m) => {
                return Err(Fault::Hashing(m));
            },
        },
    };
    Ok(
        CreateOutcome::Created(
            Route {
                key,
                url: data.url.clone(),
                username: data.username.clone(),
                hash,
                salt,
            },
        ),
    )
}

/// Decides a request to create a webhook, given the contents of the routes
/// file: "Internal Error" when no key can be made from the last line, a
/// fault when a line is not a route, and otherwise as `create_result` says
/// for the key that `get_next_key` made from the last line's key (see
/// [`key_of`]).
pub fn create_webhook(contents: &str, data: &Create) -> (r: Result<CreateOutcome, Fault>)
    ensures
        key_seed(contents@) is Err ==> (r matches Ok(CreateOutcome::Rejected(m)) && m@
            == "Internal Error"@),
        key_seed(contents@) is Ok && routes_of(contents@) is None ==> r matches Err(
            Fault::MalformedRoutes,
        ),
        key_seed(contents@) is Ok && routes_of(contents@) is Some ==> exists|k: Seq<char>|
            is_hex_key(k) && #[trigger] create_result(
                routes_of(contents@)->0,
                data.url@,
                data.username@,
                data.password@,
                k,
                r,
            ),
        key_seed(contents@) matches Ok(n) ==> (routes_of(contents@) is Some ==> create_result(
            routes_of(contents@)->0,
            data.url@,
            data.username@,
            data.password@,
            key_of(n),
            r,
        )),
{
    let key = match get_next_key(contents) {
        Ok(n) => n,
        Err(_) => {
            return Ok(CreateOutcome::Rejected(String::from_str("Internal Error")));
        },
    };
    let ghost k = key@;
    let r = create_webhook_with_key(contents, data, key);
    proof {
        if routes_of(contents@) is Some {
            assert(create_result(
                routes_of(contents@)->0,
                data.url@,
                data.username@,
                data.password@,
                k,
                r,
            ));
        }
    }
    r
}

} // verus!

verus! {

/// The state of deleting one webhook, line by line: still going (whether
/// the route was found, and the text kept so far), or stopped.
pub enum DeleteState {
    Running(bool, Seq<char>),
    Refused,
    Malformed,
    HashFailed,
}

/// One line of deleting the webhook with key `k` of user `u`: the route of
/// the line is dropped when it is the webhook and `p` is its password; a
/// second such route, or a wrong password, refuses the request; any other
/// line is kept.
pub open spec fn delete_step(
    st: DeleteState,
    l: Seq<char>,
    k: Seq<char>,
    u: Seq<char>,
    p: Seq<char>,
) -> DeleteState {
    match st {
        DeleteState::Running(found, out) => match parse_line(l) {
            None => DeleteState::Malformed,
            Some(r) => if r.username == u && r.key == k {
                if found {
                    DeleteState::Refused
                } else {
                    match stored_hash(p, r.salt) {
                        None => DeleteState::HashFailed,
                        Some(h) => if h == r.hash {
                            DeleteState::Running(true, out)
                        } else {
                            DeleteState::Refused
                        },
                    }
                }
            } else {
                DeleteState::Running(found, out + l.push('\n'))
            },
        },
        other => other,
    }
}

/// Deleting over the lines `ls`, from the first.
pub open spec fn delete_run(ls: Seq<Seq<char>>, k: Seq<char>, u: Seq<char>, p: Seq<char>) -> DeleteState
    decreases ls.len(),
{
    if ls.len() == 0 {
        DeleteState::Running(false, Seq::empty())
    } else {
        delete_step(delete_run(ls.drop_last(), k, u, p), ls.last(), k, u, p)
    }
}

/// Once stopped, deleting stays stopped.
proof fn lemma_delete_stuck(ls: Seq<Seq<char>>, n: int, k: Seq<char>, u: Seq<char>, p: Seq<char>)
    requires
        0 <= n <= ls.len(),
        !(delete_run(ls.take(n), k, u, p) is Running),
    ensures
        delete_run(ls, k, u, p) == delete_run(ls.take(n), k, u, p),
    decreases ls.len() - n,
{
    if n < ls.len() {
        assert(ls.take(n + 1).drop_last() =~= ls.take(n));
        lemma_delete_stuck(ls, n + 1, k, u, p);
    } else {
        assert(ls.take(n) =~= ls);
    }
}

/// The outcome of a request to delete a webhook: the new contents of the
/// routes file, or a refusal with its message.
#[derive(Debug)]
pub enum DeleteOutcome {
    Deleted(String),
    Rejected(String),
}

/// Decides a request to delete a webhook, given the contents of the routes
/// file (see [`delete_run`]): the kept lines, each followed by `'\n'`, once
/// the webhook was found; "Key not found" when it was not, "Invalid
/// Password" when refused.
pub fn delete_webhook(contents: &str, data: &Delete) -> (r: Result<DeleteOutcome, Fault>)
    ensures
        match delete_run(lines(contents@), data.key@, data.username@, data.password@) {
            DeleteState::Running(true, out) => r matches Ok(DeleteOutcome::Deleted(s)) && s@ == out,
            DeleteState::Running(false, _) => r matches Ok(DeleteOutcome::Rejected(m)) && m@
                == "Key not found"@,
            DeleteState::Refused => r matches Ok(DeleteOutcome::Rejected(m)) && m@
                == "Invalid Password"@,
            DeleteState::Malformed => r matches Err(Fault::MalformedRoutes),
            DeleteState::HashFailed => (r matches Err(Fault::Hashing(m)) && hash_error_text(m@)),
        },
        r matches Ok(DeleteOutcome::Deleted(s)) ==> ((forall|i: int|
            0 <= i < lines(contents@).len() ==> strip_cr(#[trigger] lines(contents@)[i]) == lines(
                contents@,
            )[i]) ==> (routes_of(contents@) matches Some(rs) && count_matches(
            rs,
            data.key@,
            data.username@,
        ) == 1 && routes_of(s@) == Some(other_routes(rs, data.key@, data.username@)))),
{
    let chars = chars_of(contents);
    let ls = split_lines(&chars);
    let ghost lv = lines(contents@);
    let ghost k = data.key@;
    let ghost u = data.username@;
    let ghost p = data.password@;
    let mut output = String::new();
    let mut found = false;
    let mut i: usize = 0;
    assert(lv.take(0) =~= Seq::<Seq<char>>::empty());
    while i < ls.len()
        invariant
            views(ls@) == lv,
            lv == lines(contents@),
            k == data.key@ && u == data.username@ && p == data.password@,
            i <= ls.len(),
            delete_run(lv.take(i as int), k, u, p) == DeleteState::Running(found, output@),
        decreases ls.len() - i,
    {
        let line = &ls[i];
        assert(views(ls@)[i as int] == line@);
        assert(lv.take(i + 1).drop_last() =~= lv.take(i as int));
        assert(lv.take(i + 1).last() == line@);
        let route = match parse_route_line(line) {
            Some(r) => r,
            None => {
                proof {
                    lemma_delete_stuck(lv, i + 1, k, u, p);
                }
                return Err(Fault::MalformedRoutes);
            },
        };
        if route.username == data.username && route.key == data.key {
            let accepted = if found {
                false
            } else {
                match hash_old(data.password.clone(), route.salt.clone()) {
                    Ok(h) => h == route.hash,
                    Err(m) => {
                        proof {
                            lemma_delete_stuck(lv, i + 1, k, u, p);
                        }
                        return Err(Fault::Hashing(m));
                    },
                }
            };
            if accepted {
                found = true;
            } else {
                proof {
                    lemma_delete_stuck(lv, i + 1, k, u, p);
                }
                return Ok(DeleteOutcome::Rejected(String::from_str("Invalid Password")));
            }
        } else {
            append_chars(&mut output, line);
            push_char(&mut output, '\n');
            assert(output@ =~= delete_run(lv.take(i as int), k, u, p)->Running_1 + line@.push(
                '\n',
            ));
        }
        i += 1;
    }
    assert(lv.take(ls.len() as int) =~= lv);
    if !found {
        return Ok(DeleteOutcome::Rejected(String::from_str("Key not found")));
    }
    proof {
        if forall|i: int| 0 <= i < lv.len() ==> strip_cr(#[trigger] lv[i]) == lv[i] {
            lemma_delete_removes_webhook(contents@, k, u, p);
        }
    }
    Ok(DeleteOutcome::Deleted(output))
}

} // verus!

verus! {

/// The position of the first occurrence of `k` in `s`.
pub open spec fn first_index(s: Seq<Seq<char>>, k: Seq<char>) -> Option<int>
    decreases s.len(),
{
    if s.len() == 0 {
        None
    } else {
        match first_index(s.drop_last(), k) {
            Some(i) => Some(i),
            None => if s.last() == k {
                Some(s.len() - 1)
            } else {
                None
            },
        }
    }
}

/// The state of deleting several webhooks, line by line: still going (the
/// keys not yet matched, the keys deleted, whether the password was
/// accepted, and the text kept so far), or stopped.
pub enum DeletesState {
    Running(Seq<Seq<char>>, Seq<Seq<char>>, bool, Seq<char>),
    Refused,
    Malformed,
    HashFailed,
}

/// One line of deleting the webhooks of user `u`: a route of the user whose
/// key is still among the keys to delete is dropped, and its key moved from
/// the keys to the deleted ones, once the password `p` is accepted (the
/// first such route checks it; a wrong password refuses the request); any
/// other line is kept.
pub open spec fn deletes_step(st: DeletesState, l: Seq<char>, u: Seq<char>, p: Seq<char>) -> DeletesState {
    match st {
        DeletesState::Running(keys, found, accepted, out) => match parse_line(l) {
            None => DeletesState::Malformed,
            Some(r) => {
                let kept = DeletesState::Running(keys, found, accepted, out + l.push('\n'));
                if r.username != u {
                    kept
                } else {
                    match first_index(keys, r.key) {
                        None => kept,
                        Some(i) => {
                            let removed = DeletesState::Running(
                                keys.remove(i),
                                found.push(keys[i]),
                                true,
                                out,
                            );
                            if accepted {
                                removed
                            } else {
                                match stored_hash(p, r.salt) {
                                    None => DeletesState::HashFailed,
                                    Some(h) => if h == r.hash {
                                        removed
                                    } else {
                                        DeletesState::Refused
                                    },
                                }
                            }
                        },
                    }
                }
            },
        },
        other => other,
    }
}

/// Deleting the webhooks with keys `keys` over the lines `ls`, from the first.
pub open spec fn deletes_run(ls: Seq<Seq<char>>, keys: Seq<Seq<char>>, u: Seq<char>, p: Seq<char>) -> DeletesState
    decreases ls.len(),
{
    if ls.len() == 0 {
        DeletesState::Running(keys, Seq::empty(), false, Seq::empty())
    } else {
        deletes_step(deletes_run(ls.drop_last(), keys, u, p), ls.last(), u, p)
    }
}

/// Once stopped, deleting stays stopped.
proof fn lemma_deletes_stuck(
    ls: Seq<Seq<char>>,
    n: int,
    keys: Seq<Seq<char>>,
    u: Seq<char>,
    p: Seq<char>,
)
    requires
        0 <= n <= ls.len(),
        !(deletes_run(ls.take(n), keys, u, p) is Running),
    ensures
        deletes_run(ls, keys, u, p) == deletes_run(ls.take(n), keys, u, p),
    decreases ls.len() - n,
{
    if n < ls.len() {
        assert(ls.take(n + 1).drop_last() =~= ls.take(n));
        lemma_deletes_stuck(ls, n + 1, keys, u, p);
    } else {
        assert(ls.take(n) =~= ls);
    }
}

/// The outcome of a request to delete several webhooks: the new contents of
/// the routes file with the deleted keys, or a refusal with its message.
#[derive(Debug)]
pub enum DeletesOutcome {
    Removed(String, Vec<String>),
    Rejected(String),
}

/// The position of the first key equal to `k`.
fn find_key(keys: &Vec<String>, k: &String) -> (r: Option<usize>)
    ensures
        match r {
            Some(j) => first_index(string_views(keys@), k@) == Some(j as int) && j < keys@.len()
                && keys@[j as int]@ == k@,
            None => first_index(string_views(keys@), k@) is None,
        },
{
    let ghost ks = string_views(keys@);
    let mut j: usize = 0;
    while j < keys.len()
        invariant
            ks == string_views(keys@),
            j <= keys.len(),
            first_index(ks.take(j as int), k@) is None,
        decreases keys.len() - j,
    {
        assert(ks.take(j + 1).drop_last() =~= ks.take(j as int));
        if keys[j] == *k {
            assert(first_index(ks.take(j + 1), k@) == Some(j as int));
            proof {
                lemma_first_index_prefix(ks, j + 1, k@);
            }
            return Some(j);
        }
        j += 1;
    }
    assert(ks.take(keys.len() as int) =~= ks);
    None
}

/// A key found in a prefix is the first occurrence in the whole sequence.
proof fn lemma_first_index_prefix(s: Seq<Seq<char>>, n: int, k: Seq<char>)
    requires
        0 <= n <= s.len(),
        first_index(s.take(n), k) is Some,
    ensures
        first_index(s, k) == first_index(s.take(n), k),
    decreases s.len() - n,
{
    if n < s.len() {
        assert(s.take(n + 1).drop_last() =~= s.take(n));
        lemma_first_index_prefix(s, n + 1, k);
    } else {
        assert(s.take(n) =~= s);
    }
}

/// Decides a request to delete several webhooks, given the contents of the
/// routes file (see [`deletes_run`]): the kept lines, each followed by
/// `'\n'`, with the keys deleted, or "Invalid Password" when refused.
pub fn delete_webhooks(contents: &str, data: Deletes) -> (r: Result<DeletesOutcome, Fault>)
    ensures
        match deletes_run(lines(contents@), string_views(data.keys@), data.username@, data.password@) {
            DeletesState::Running(_, found, _, out) => r matches Ok(
                DeletesOutcome::Removed(s, f),
            ) && s@ == out && string_views(f@) == found,
            DeletesState::Refused => r matches Ok(DeletesOutcome::Rejected(m)) && m@
                == "Invalid Password"@,
            DeletesState::Malformed => r matches Err(Fault::MalformedRoutes),
            DeletesState::HashFailed => (r matches Err(Fault::Hashing(m)) && hash_error_text(m@)),
        },
        r matches Ok(DeletesOutcome::Removed(s, f)) ==> ((forall|i: int|
            0 <= i < lines(contents@).len() ==> strip_cr(#[trigger] lines(contents@)[i]) == lines(
                contents@,
            )[i]) ==> (routes_of(contents@) matches Some(rs) && string_views(f@) == multi_delete(
            rs,
            string_views(data.keys@),
            data.username@,
        ).1 && routes_of(s@) == Some(multi_delete(rs, string_views(data.keys@), data.username@).2))),
{
    let ghost keys0 = string_views(data.keys@);
    let ghost u = data.username@;
    let ghost pw = data.password@;
    let Deletes { mut keys, username, password } = data;
    let chars = chars_of(contents);
    let ls = split_lines(&chars);
    let ghost lv = lines(contents@);
    let mut output = String::new();
    let mut found: Vec<String> = Vec::new();
    let mut is_user = false;
    let mut i: usize = 0;
    assert(lv.take(0) =~= Seq::<Seq<char>>::empty());
    assert(string_views(found@) =~= Seq::<Seq<char>>::empty());
    while i < ls.len()
        invariant
            views(ls@) == lv,
            lv == lines(contents@),
            username@ == u && password@ == pw,
            u == data.username@ && pw == data.password@ && keys0 == string_views(data.keys@),
            i <= ls.len(),
            deletes_run(lv.take(i as int), keys0, username@, password@) == DeletesState::Running(
                string_views(keys@),
                string_views(found@),
                is_user,
                output@,
            ),
        decreases ls.len() - i,
    {
        let line = &ls[i];
        assert(views(ls@)[i as int] == line@);
        assert(lv.take(i + 1).drop_last() =~= lv.take(i as int));
        assert(lv.take(i + 1).last() == line@);
        let route = match parse_route_line(line) {
            Some(r) => r,
            None => {
                proof {
                    lemma_deletes_stuck(lv, i + 1, keys0, username@, password@);
                }
                return Err(Fault::MalformedRoutes);
            },
        };
        let ghost old_out = output@;
        let mut add_line = true;
        if route.username == username {
            match find_key(&keys, &route.key) {
                Some(j) => {
                    let accepted = if is_user {
                        true
                    } else {
                        match hash_old(password.clone(), route.salt.clone()) {
                            Ok(h) => h == route.hash,
                            Err(m) => {
                                proof {
                                    lemma_deletes_stuck(lv, i + 1, keys0, username@, password@);
                                }
                                return Err(Fault::Hashing(m));
                            },
                        }
                    };
                    if !accepted {
                        proof {
                            lemma_deletes_stuck(lv, i + 1, keys0, username@, password@);
                        }
                        return Ok(DeletesOutcome::Rejected(String::from_str("Invalid Password")));
                    }
                    let ghost ks = string_views(keys@);
                    let ghost fs = string_views(found@);
                    is_user = true;
                    add_line = false;
                    let k = keys.remove(j);
                    found.push(k);
                    assert(string_views(keys@) =~= ks.remove(j as int));
                    assert(string_views(found@) =~= fs.push(ks[j as int]));
                },
                None => {},
            }
        }
        if add_line {
            append_chars(&mut output, line);
            push_char(&mut output, '\n');
            assert(output@ =~= old_out + line@.push('\n'));
        }
        i += 1;
    }
    assert(lv.take(ls.len() as int) =~= lv);
    proof {
        if forall|i: int| 0 <= i < lv.len() ==> strip_cr(#[trigger] lv[i]) == lv[i] {
            lemma_deletes_remove_listed(contents@, keys0, u, pw);
        }
    }
    Ok(DeletesOutcome::Removed(output, found))
}

} // verus!

verus! {

/// A text that fits in a field of a route line: no field separator, no line
/// break.
pub open spec fn clean_field(s: Seq<char>) -> bool {
    !has_field_sep(s) && !s.contains('\n')
}

/// Base64 text holds neither the field separator nor a line break, and does
/// not end with `'\r'`.
pub proof fn lemma_b64_clean(s: Seq<char>)
    requires
        all_b64(s),
    ensures
        clean_field(s),
        !(s.len() > 0 && s.last() == '\r'),
{
    if has_field_sep(s) {
        let i = choose|i: int| field_sep_at(s, i);
        assert(b64_char(s[i]));
    }
    if s.contains('\n') {
        let i = choose|i: int| 0 <= i < s.len() && s[i] == '\n';
        assert(b64_char(s[i]));
    }
    if s.len() > 0 {
        assert(b64_char(s[s.len() - 1]));
    }
}

/// Without routes of user `u`, nothing is listed for `u`.
pub proof fn lemma_hooks_without_user(rs: Seq<RouteView>, u: Seq<char>, p: Seq<char>)
    requires
        first_of_user(rs, u) is None,
    ensures
        hooks_run(rs, u, p) == Some((false, Seq::<(Seq<char>, Seq<char>)>::empty())),
    decreases rs.len(),
{
    if rs.len() > 0 {
        lemma_hooks_without_user(rs.drop_last(), u, p);
    }
}

/// A new user's webhook, once its route is written to the routes file, lets
/// its owner in with the password it was created with, and is the one
/// webhook listed for its owner.
pub proof fn lemma_new_user_route_verifies(c: Seq<char>, nr: RouteView, p: Seq<char>)
    requires
        at_line_start(c),
        routes_of(c) is Some,
        first_of_user(routes_of(c)->0, nr.username) is None,
        is_hex_key(nr.key),
        fresh_hash(p, nr.hash, nr.salt),
        clean_field(nr.url),
        clean_field(nr.username),
        !(nr.username.len() > 0 && nr.username.last() == '\r'),
    ensures
        routes_of(c + line_of(nr)) is Some,
        verify_outcome(routes_of(c + line_of(nr))->0, nr.username, p) == Verdict::Accepted,
        hooks_run(routes_of(c + line_of(nr))->0, nr.username, p) == Some(
            (true, seq![(nr.key, nr.url)]),
        ),
{
    lemma_hex_key_clean(nr.key);
    lemma_b64_clean(nr.hash);
    lemma_b64_clean(nr.salt);
    lemma_routes_append(c, nr);
    lemma_hash_old_reproduces_hash_new(p, nr.hash, nr.salt);
    let rs = routes_of(c)->0;
    let rs2 = rs.push(nr);
    assert(rs2.drop_last() =~= rs);
    lemma_hooks_without_user(rs, nr.username, p);
    assert(Seq::<(Seq<char>, Seq<char>)>::empty().push((nr.key, nr.url)) =~= seq![(nr.key, nr.url)]);
}

} // verus!

verus! {

/// The routes other than the webhook with key `k` of user `u`, in order.
pub open spec fn other_routes(rs: Seq<RouteView>, k: Seq<char>, u: Seq<char>) -> Seq<RouteView>
    decreases rs.len(),
{
    if rs.len() == 0 {
        Seq::empty()
    } else {
        let rest = other_routes(rs.drop_last(), k, u);
        if rs.last().username == u && rs.last().key == k {
            rest
        } else {
            rest.push(rs.last())
        }
    }
}

/// How many routes are the webhook with key `k` of user `u`.
pub open spec fn count_matches(rs: Seq<RouteView>, k: Seq<char>, u: Seq<char>) -> nat
    decreases rs.len(),
{
    if rs.len() == 0 {
        0
    } else {
        count_matches(rs.drop_last(), k, u) + if rs.last().username == u && rs.last().key == k {
            1nat
        } else {
            0nat
        }
    }
}

/// The routes of the lines `ls`, each of which is a route.
pub open spec fn parsed_routes(ls: Seq<Seq<char>>) -> Seq<RouteView> {
    ls.map_values(|l: Seq<char>| parse_line(l)->0)
}

/// While deleting goes on over lines that do not end with `'\r'`, every line
/// so far is a route, the kept text is at a line start and records the
/// other routes so far, and the webhook was found exactly when it occurred.
proof fn lemma_delete_prefix(ls: Seq<Seq<char>>, n: int, k: Seq<char>, u: Seq<char>, p: Seq<char>)
    requires
        0 <= n <= ls.len(),
        forall|i: int| 0 <= i < ls.len() ==> !(#[trigger] ls[i]).contains('\n'),
        forall|i: int| 0 <= i < ls.len() ==> strip_cr(#[trigger] ls[i]) == ls[i],
        delete_run(ls.take(n), k, u, p) is Running,
    ensures
        forall|i: int| 0 <= i < n ==> #[trigger] parse_line(ls[i]) is Some,
        at_line_start(delete_run(ls.take(n), k, u, p)->Running_1),
        routes_of(delete_run(ls.take(n), k, u, p)->Running_1) == Some(
            other_routes(parsed_routes(ls.take(n)), k, u),
        ),
        count_matches(parsed_routes(ls.take(n)), k, u) <= 1,
        delete_run(ls.take(n), k, u, p)->Running_0 <==> count_matches(
            parsed_routes(ls.take(n)),
            k,
            u,
        ) == 1,
    decreases n,
{
    let pre = ls.take(n);
    if n == 0 {
        assert(pre =~= Seq::<Seq<char>>::empty());
        assert(lines(Seq::<char>::empty()) =~= Seq::<Seq<char>>::empty());
        assert(routes_of(Seq::<char>::empty()) =~= Some(Seq::<RouteView>::empty()));
    } else {
        let prev = ls.take(n - 1);
        assert(pre.drop_last() =~= prev);
        assert(pre.last() == ls[n - 1]);
        assert(parsed_routes(pre).drop_last() =~= parsed_routes(prev));
        let st = delete_run(prev, k, u, p);
        assert(delete_run(pre, k, u, p) == delete_step(st, ls[n - 1], k, u, p));
        assert(st is Running);
        lemma_delete_prefix(ls, n - 1, k, u, p);
        let l = ls[n - 1];
        assert(parse_line(l) is Some);
        assert forall|i: int| 0 <= i < n implies #[trigger] parse_line(ls[i]) is Some by {
            if i < n - 1 {
                assert(parse_line(ls[i]) is Some);
            }
        }
        let r = parse_line(l)->0;
        assert(parsed_routes(pre).last() == r);
        let out = st->Running_1;
        if !(r.username == u && r.key == k) {
            lemma_routes_append_line(out, l);
            assert(other_routes(parsed_routes(pre), k, u) =~= other_routes(
                parsed_routes(prev),
                k,
                u,
            ).push(r));
        }
    }
}

/// Deleting a webhook removes exactly its route: when deleting succeeds on
/// a routes file none of whose lines ends with `'\r'`, the file recorded
/// that webhook once, and the new contents record the other routes, in
/// order.
pub proof fn lemma_delete_removes_webhook(c: Seq<char>, k: Seq<char>, u: Seq<char>, p: Seq<char>)
    requires
        forall|i: int| 0 <= i < lines(c).len() ==> strip_cr(#[trigger] lines(c)[i]) == lines(c)[i],
        delete_run(lines(c), k, u, p) matches DeleteState::Running(true, _),
    ensures
        routes_of(c) is Some,
        count_matches(routes_of(c)->0, k, u) == 1,
        routes_of(delete_run(lines(c), k, u, p)->Running_1) == Some(
            other_routes(routes_of(c)->0, k, u),
        ),
{
    let ls = lines(c);
    lemma_lines_no_break(c);
    assert(ls.take(ls.len() as int) =~= ls);
    lemma_delete_prefix(ls, ls.len() as int, k, u, p);
    assert(forall|i: int| 0 <= i < ls.len() ==> #[trigger] parse_line(ls[i]) is Some);
    assert(routes_of(c) == Some(parsed_routes(ls)));
}

} // verus!

verus! {

/// The key and URL of every route of user `u`, in order.
pub open spec fn user_pairs(rs: Seq<RouteView>, u: Seq<char>) -> Seq<(Seq<char>, Seq<char>)>
    decreases rs.len(),
{
    if rs.len() == 0 {
        Seq::empty()
    } else {
        let rest = user_pairs(rs.drop_last(), u);
        if rs.last().username == u {
            rest.push((rs.last().key, rs.last().url))
        } else {
            rest
        }
    }
}

/// Webhooks are user specific: every webhook listed for user `u` is the key
/// and URL of a route of `u`.
pub proof fn lemma_listed_hooks_belong_to_user(rs: Seq<RouteView>, u: Seq<char>, p: Seq<char>)
    requires
        hooks_run(rs, u, p) is Some,
    ensures
        forall|i: int|
            0 <= i < (hooks_run(rs, u, p)->0).1.len() ==> user_pairs(rs, u).contains(
                #[trigger] (hooks_run(rs, u, p)->0).1[i],
            ),
    decreases rs.len(),
{
    if rs.len() > 0 {
        let prev = rs.drop_last();
        lemma_listed_hooks_belong_to_user(prev, u, p);
        let out0 = (hooks_run(prev, u, p)->0).1;
        let out = (hooks_run(rs, u, p)->0).1;
        let up0 = user_pairs(prev, u);
        let up = user_pairs(rs, u);
        assert forall|i: int| 0 <= i < out.len() implies up.contains(#[trigger] out[i]) by {
            if i < out0.len() {
                assert(out[i] == out0[i]);
                assert(up0.contains(out0[i]));
                let j = choose|j: int| 0 <= j < up0.len() && up0[j] == out0[i];
                if rs.last().username == u {
                    assert(up[j] == up0[j]);
                } else {
                    assert(up == up0);
                }
            } else {
                assert(rs.last().username == u);
                assert(out[i] == (rs.last().key, rs.last().url));
                assert(up[up.len() - 1] == out[i]);
            }
        }
    }
}

} // verus!

verus! {

/// Deleting the keys `keys` of user `u` from the routes `rs`, password
/// aside: each route of `u` whose key is still among the keys is removed,
/// and the first such key moves from the keys to the deleted ones. Gives
/// the keys left, the keys deleted, and the routes kept.
pub open spec fn multi_delete(rs: Seq<RouteView>, keys: Seq<Seq<char>>, u: Seq<char>) -> (
    Seq<Seq<char>>,
    Seq<Seq<char>>,
    Seq<RouteView>,
)
    decreases rs.len(),
{
    if rs.len() == 0 {
        (keys, Seq::empty(), Seq::empty())
    } else {
        let (left, deleted, kept) = multi_delete(rs.drop_last(), keys, u);
        let r = rs.last();
        if r.username == u && first_index(left, r.key) is Some {
            let i = first_index(left, r.key)->0;
            (left.remove(i), deleted.push(left[i]), kept)
        } else {
            (left, deleted, kept.push(r))
        }
    }
}

/// While deleting several webhooks goes on over lines that do not end with
/// `'\r'`, every line so far is a route, the kept text is at a line start,
/// and keys and kept routes are as `multi_delete` says.
proof fn lemma_deletes_prefix(
    ls: Seq<Seq<char>>,
    n: int,
    keys: Seq<Seq<char>>,
    u: Seq<char>,
    p: Seq<char>,
)
    requires
        0 <= n <= ls.len(),
        forall|i: int| 0 <= i < ls.len() ==> !(#[trigger] ls[i]).contains('\n'),
        forall|i: int| 0 <= i < ls.len() ==> strip_cr(#[trigger] ls[i]) == ls[i],
        deletes_run(ls.take(n), keys, u, p) is Running,
    ensures
        forall|i: int| 0 <= i < n ==> #[trigger] parse_line(ls[i]) is Some,
        ({
            let st = deletes_run(ls.take(n), keys, u, p);
            let (left, deleted, kept) = multi_delete(parsed_routes(ls.take(n)), keys, u);
            &&& st->Running_0 == left
            &&& st->Running_1 == deleted
            &&& at_line_start(st->Running_3)
            &&& routes_of(st->Running_3) == Some(kept)
        }),
    decreases n,
{
    let pre = ls.take(n);
    if n == 0 {
        assert(pre =~= Seq::<Seq<char>>::empty());
        assert(lines(Seq::<char>::empty()) =~= Seq::<Seq<char>>::empty());
        assert(routes_of(Seq::<char>::empty()) =~= Some(Seq::<RouteView>::empty()));
    } else {
        let prev = ls.take(n - 1);
        assert(pre.drop_last() =~= prev);
        assert(pre.last() == ls[n - 1]);
        assert(parsed_routes(pre).drop_last() =~= parsed_routes(prev));
        let st = deletes_run(prev, keys, u, p);
        assert(deletes_run(pre, keys, u, p) == deletes_step(st, ls[n - 1], u, p));
        assert(st is Running);
        lemma_deletes_prefix(ls, n - 1, keys, u, p);
        let l = ls[n - 1];
        assert(parse_line(l) is Some);
        assert forall|i: int| 0 <= i < n implies #[trigger] parse_line(ls[i]) is Some by {
            if i < n - 1 {
                assert(parse_line(ls[i]) is Some);
            }
        }
        let r = parse_line(l)->0;
        assert(parsed_routes(pre).last() == r);
        let out = st->Running_3;
        if !(r.username == u && first_index(st->Running_0, r.key) is Some) {
            lemma_routes_append_line(out, l);
        }
    }
}

/// Deleting several webhooks removes exactly what `multi_delete` says: when
/// it succeeds on a routes file none of whose lines ends with `'\r'`, the
/// keys deleted are those of `multi_delete`, and the new contents record
/// the routes it keeps, in order.
pub proof fn lemma_deletes_remove_listed(
    c: Seq<char>,
    keys: Seq<Seq<char>>,
    u: Seq<char>,
    p: Seq<char>,
)
    requires
        forall|i: int| 0 <= i < lines(c).len() ==> strip_cr(#[trigger] lines(c)[i]) == lines(c)[i],
        deletes_run(lines(c), keys, u, p) is Running,
    ensures
        routes_of(c) is Some,
        deletes_run(lines(c), keys, u, p)->Running_1 == multi_delete(routes_of(c)->0, keys, u).1,
        routes_of(deletes_run(lines(c), keys, u, p)->Running_3) == Some(
            multi_delete(routes_of(c)->0, keys, u).2,
        ),
{
    let ls = lines(c);
    lemma_lines_no_break(c);
    assert(ls.take(ls.len() as int) =~= ls);
    lemma_deletes_prefix(ls, ls.len() as int, keys, u, p);
    assert(forall|i: int| 0 <= i < ls.len() ==> #[trigger] parse_line(ls[i]) is Some);
    assert(routes_of(c) == Some(parsed_routes(ls)));
}

} // verus!

verus! {

/// A stored salt holds neither the field separator nor a line break, and
/// does not end with `'\r'`.
pub proof fn lemma_salt_clean(s: Seq<char>)
    requires
        salt_string_valid(s),
    ensures
        clean_field(s),
        !(s.len() > 0 && s.last() == '\r'),
{
    if has_field_sep(s) {
        let i = choose|i: int| field_sep_at(s, i);
        assert(salt_char(s[i + 1]));
    }
    if s.contains('\n') {
        let i = choose|i: int| 0 <= i < s.len() && s[i] == '\n';
        assert(salt_char(s[i]));
    }
    if s.len() > 0 {
        assert(salt_char(s[s.len() - 1]));
    }
}

/// The route that creating a webhook gives has a key, hash and salt that
/// hold neither `", "` nor a line break.
proof fn lemma_created_fields_clean(
    rs: Seq<RouteView>,
    url: Seq<char>,
    u: Seq<char>,
    p: Seq<char>,
    nr: Route,
)
    requires
        create_result(rs, url, u, p, nr@.key, Ok(CreateOutcome::Created(nr))),
    ensures
        clean_field(nr@.hash),
        clean_field(nr@.salt),
        !(nr@.salt.len() > 0 && nr@.salt.last() == '\r'),
{
    let r = nr@;
    lemma_b64_clean(r.hash);
    match first_of_user(rs, u) {
        Some(old) => {
            assert(salt_string_valid(r.salt));
            lemma_salt_clean(r.salt);
        },
        None => {
            lemma_b64_clean(r.salt);
        },
    }
}

/// A created webhook's key leads to the URL it was created for: once the
/// route that creating it gives is written to a routes file that ends at a
/// line start (where no route had that key), the key is found with that
/// URL, whatever the owner's name, as long as the file still reads as routes
/// (which it does when the name holds no line break).
pub proof fn lemma_created_key_routes_to_url(
    c: Seq<char>,
    url: Seq<char>,
    u: Seq<char>,
    p: Seq<char>,
    nr: Route,
)
    requires
        at_line_start(c),
        routes_of(c) is Some,
        create_result(routes_of(c)->0, url, u, p, nr@.key, Ok(CreateOutcome::Created(nr))),
        clean_field(nr@.key),
        clean_field(url),
        !u.contains('\n') || routes_of(c + line_of(nr@)) is Some,
        lookup_url(routes_of(c)->0, nr@.key) is None,
    ensures
        routes_of(c + line_of(nr@)) is Some,
        lookup_url(routes_of(c + line_of(nr@))->0, nr@.key) == Some(url),
{
    lemma_created_fields_clean(routes_of(c)->0, url, u, p, nr);
    assert(route_key_readable(nr@));
    lemma_written_route_found(c, nr@);
}

/// The first route of a user is one of the routes, under that name.
proof fn lemma_first_of_user_member(rs: Seq<RouteView>, u: Seq<char>)
    ensures
        first_of_user(rs, u) matches Some(x) ==> x.username == u && rs.contains(x),
    decreases rs.len(),
{
    if rs.len() > 0 {
        lemma_first_of_user_member(rs.drop_last(), u);
        if first_of_user(rs.drop_last(), u) is Some {
            let x = first_of_user(rs.drop_last(), u)->0;
            let i = choose|i: int| 0 <= i < rs.drop_last().len() && rs.drop_last()[i] == x;
            assert(rs[i] == x);
        } else if rs.last().username == u {
            assert(rs[rs.len() - 1] == rs.last());
        }
    }
}

/// The owner of a created webhook logs in with the password it was created
/// with once the route that creating it gives is written to a routes file
/// that ends at a line start, whatever the owner's name, as long as the file
/// still reads as routes (which it does when the name holds no line break):
/// an owner who had webhooks keeps the first one, and a new owner is either
/// found with the new route's fresh hash or, under a name that does not
/// read back, not found at all.
pub proof fn lemma_created_webhook_owner_logs_in(
    c: Seq<char>,
    url: Seq<char>,
    u: Seq<char>,
    p: Seq<char>,
    nr: Route,
)
    requires
        at_line_start(c),
        routes_of(c) is Some,
        create_result(routes_of(c)->0, url, u, p, nr@.key, Ok(CreateOutcome::Created(nr))),
        clean_field(nr@.key),
        clean_field(url),
        !u.contains('\n') || routes_of(c + line_of(nr@)) is Some,
    ensures
        routes_of(c + line_of(nr@)) is Some,
        verify_outcome(routes_of(c + line_of(nr@))->0, u, p) == Verdict::Accepted,
{
    let rs = routes_of(c)->0;
    let r = nr@;
    lemma_created_fields_clean(rs, url, u, p, nr);
    assert(route_key_readable(r));
    if !u.contains('\n') {
        assert(route_is_readable(r));
        lemma_routes_append_readable(c, r);
    }
    let c2 = c + line_of(r);
    let rs2 = routes_of(c2)->0;
    lemma_lines_concat(c, line_of(r));
    let n = rs.len() as int;
    assert(rs2.take(n) =~= rs) by {
        assert forall|i: int| 0 <= i < n implies rs2[i] == rs[i] by {
            assert(lines(c2)[i] == lines(c)[i]);
        }
    }
    match first_of_user(rs, u) {
        Some(old) => {
            lemma_first_of_user_prefix(rs2, n, u);
        },
        None => {
            lemma_hash_old_reproduces_hash_new(p, r.hash, r.salt);
            if u.contains('\n') {
                lemma_route_names_no_break(c2);
                lemma_first_of_user_member(rs2, u);
                if first_of_user(rs2, u) is Some {
                    let x = first_of_user(rs2, u)->0;
                    let i = choose|i: int| 0 <= i < rs2.len() && rs2[i] == x;
                    assert(!rs2[i].username.contains('\n'));
                }
            } else {
                let x = parse_line(strip_cr(line_body(r)))->0;
                assert(rs.push(x).drop_last() =~= rs);
            }
        },
    }
}

/// The owner of a created webhook logs in after its route is written to a
/// routes file whose last line lacks its line break, so that the written
/// line is glued to that last line, as long as the file still reads as
/// routes: the one exception is a new owner named as the last line's name
/// followed by the key, where that line had exactly five fields (the glued
/// route, with the last line's hash and salt, then bears the owner's name).
pub proof fn lemma_created_webhook_owner_logs_in_after_open_line(
    c: Seq<char>,
    url: Seq<char>,
    u: Seq<char>,
    p: Seq<char>,
    nr: Route,
)
    requires
        !at_line_start(c),
        routes_of(c) is Some,
        create_result(routes_of(c)->0, url, u, p, nr@.key, Ok(CreateOutcome::Created(nr))),
        clean_field(nr@.key),
        nr@.key.len() > 0,
        nr@.key[0] != ' ',
        clean_field(url),
        routes_of(c + line_of(nr@)) is Some,
        first_of_user(routes_of(c)->0, u) is None && split_fields(lines(c).last()).len() == 5
            ==> u != routes_of(c)->0.last().username + nr@.key,
    ensures
        verify_outcome(routes_of(c + line_of(nr@))->0, u, p) == Verdict::Accepted,
{
    let rs = routes_of(c)->0;
    let r = nr@;
    lemma_created_fields_clean(rs, url, u, p, nr);
    assert(route_key_readable(r));
    lemma_routes_append_merged(c, r);
    let c2 = c + line_of(r);
    let rs2 = routes_of(c2)->0;
    let n = rs.len() as int;
    let last = rs[n - 1];
    assert(rs2.take(n - 1) =~= rs.take(n - 1));
    assert(rs.take(n) =~= rs);
    assert(rs.take(n).drop_last() =~= rs.take(n - 1));
    assert(rs2.take(n).drop_last() =~= rs2.take(n - 1));
    assert(rs.last() == last);
    lemma_route_names_no_break(c);
    lemma_route_names_no_break(c2);
    if first_of_user(rs.take(n - 1), u) is Some {
        lemma_first_of_user_prefix(rs, n - 1, u);
        lemma_first_of_user_prefix(rs2, n - 1, u);
    } else if first_of_user(rs, u) is Some {
        assert(last.username == u);
        assert(!u.contains('\n'));
        if split_fields(lines(c).last()).len() > 5 {
            assert(first_of_user(rs2.take(n), u) == Some(last));
            lemma_first_of_user_prefix(rs2, n, u);
        } else {
            assert((u + r.key).len() != u.len());
            assert(rs2.take(n) =~= rs2);
        }
    } else {
        lemma_first_of_user_member(rs2, u);
        if u.contains('\n') {
            if first_of_user(rs2, u) is Some {
                let x = first_of_user(rs2, u)->0;
                let i = choose|i: int| 0 <= i < rs2.len() && rs2[i] == x;
                assert(!rs2[i].username.contains('\n'));
            }
        } else {
            assert(last.username != u);
            assert(rs2.take(n) =~= rs2);
        }
    }
}

} // verus!

verus! {

/// The text of lines, each followed by a line break.
pub open spec fn join_lines(ls: Seq<Seq<char>>) -> Seq<char>
    decreases ls.len(),
{
    if ls.len() == 0 {
        Seq::empty()
    } else {
        join_lines(ls.drop_last()) + ls.last().push('\n')
    }
}

/// Deleting the keys `keys` of user `u` over the lines `ls`, password
/// aside, at the level of lines: the keys left and the lines kept.
pub open spec fn sweep(ls: Seq<Seq<char>>, keys: Seq<Seq<char>>, u: Seq<char>) -> (
    Seq<Seq<char>>,
    Seq<Seq<char>>,
)
    decreases ls.len(),
{
    if ls.len() == 0 {
        (keys, Seq::empty())
    } else {
        let (left, kept) = sweep(ls.drop_last(), keys, u);
        let r = parse_line(ls.last())->0;
        if r.username == u && first_index(left, r.key) is Some {
            (left.remove(first_index(left, r.key)->0), kept)
        } else {
            (left, kept.push(ls.last()))
        }
    }
}

proof fn lemma_first_index_found(s: Seq<Seq<char>>, k: Seq<char>)
    ensures
        first_index(s, k) matches Some(i) ==> 0 <= i < s.len() && s[i] == k,
        first_index(s, k) is None ==> !s.contains(k),
    decreases s.len(),
{
    if s.len() > 0 {
        lemma_first_index_found(s.drop_last(), k);
        if first_index(s, k) is None && s.contains(k) {
            let j = choose|j: int| 0 <= j < s.len() && s[j] == k;
            if j < s.len() - 1 {
                assert(s.drop_last()[j] == k);
            }
        }
    }
}

/// While deleting goes on, its keys left and kept text are those of
/// `sweep`.
proof fn lemma_deletes_sweep(
    ls: Seq<Seq<char>>,
    n: int,
    keys: Seq<Seq<char>>,
    u: Seq<char>,
    p: Seq<char>,
)
    requires
        0 <= n <= ls.len(),
        deletes_run(ls.take(n), keys, u, p) is Running,
    ensures
        deletes_run(ls.take(n), keys, u, p)->Running_0 == sweep(ls.take(n), keys, u).0,
        deletes_run(ls.take(n), keys, u, p)->Running_3 == join_lines(sweep(ls.take(n), keys, u).1),
    decreases n,
{
    let pre = ls.take(n);
    if n == 0 {
        assert(pre =~= Seq::<Seq<char>>::empty());
    } else {
        let prev = ls.take(n - 1);
        assert(pre.drop_last() =~= prev);
        assert(pre.last() == ls[n - 1]);
        let st = deletes_run(prev, keys, u, p);
        assert(deletes_run(pre, keys, u, p) == deletes_step(st, ls[n - 1], u, p));
        assert(st is Running);
        lemma_deletes_sweep(ls, n - 1, keys, u, p);
        let kept = sweep(prev, keys, u).1;
        assert(kept.push(ls[n - 1]).drop_last() =~= kept);
    }
}

/// Over lines with distinct keys, every key that left the keys to delete
/// was the key of an earlier line, and no kept line of user `u` has a key
/// among the keys to delete.
proof fn lemma_sweep_kept(ls: Seq<Seq<char>>, n: int, keys: Seq<Seq<char>>, u: Seq<char>)
    requires
        0 <= n <= ls.len(),
        forall|i: int| 0 <= i < ls.len() ==> #[trigger] parse_line(ls[i]) is Some,
        forall|i: int| 0 <= i < ls.len() ==> !(#[trigger] ls[i]).contains('\n'),
        forall|i: int|
            0 <= i < ls.len() && strip_cr(#[trigger] ls[i]) != ls[i] ==> parse_line(ls[i])->0.username
                == u && keys.contains(parse_line(ls[i])->0.key),
        forall|i: int, j: int|
            0 <= i < j < ls.len() ==> (#[trigger] parse_line(ls[i]))->0.key != (
            #[trigger] parse_line(ls[j]))->0.key,
    ensures
        forall|x: Seq<char>|
            keys.contains(x) && !(#[trigger] sweep(ls.take(n), keys, u).0.contains(x)) ==> exists|
                j: int,
            | 0 <= j < n && (#[trigger] parse_line(ls[j]))->0.key == x,
        forall|m: int|
            0 <= m < sweep(ls.take(n), keys, u).1.len() ==> {
                let l = #[trigger] sweep(ls.take(n), keys, u).1[m];
                &&& !l.contains('\n')
                &&& strip_cr(l) == l
                &&& parse_line(l) is Some
                &&& (parse_line(l)->0.username == u ==> !keys.contains(parse_line(l)->0.key))
            },
    decreases n,
{
    let pre = ls.take(n);
    if n == 0 {
        assert(pre =~= Seq::<Seq<char>>::empty());
    } else {
        let prev = ls.take(n - 1);
        assert(pre.drop_last() =~= prev);
        assert(pre.last() == ls[n - 1]);
        lemma_sweep_kept(ls, n - 1, keys, u);
        let (left, kept) = sweep(prev, keys, u);
        let l = ls[n - 1];
        let r = parse_line(l)->0;
        assert(parse_line(ls[n - 1]) is Some);
        lemma_first_index_found(left, r.key);
        let (left2, kept2) = sweep(pre, keys, u);
        assert forall|x: Seq<char>|
            keys.contains(x) && !(#[trigger] left2.contains(x)) implies exists|j: int|
                0 <= j < n && (#[trigger] parse_line(ls[j]))->0.key == x by {
            if left.contains(x) {
                let i = first_index(left, r.key)->0;
                assert(r.username == u && first_index(left, r.key) is Some);
                assert(left2 == left.remove(i));
                if x != left[i] {
                    let a = choose|a: int| 0 <= a < left.len() && left[a] == x;
                    if a < i {
                        assert(left2[a] == x);
                    } else {
                        assert(left2[a - 1] == x);
                    }
                    assert(false);
                }
                assert(parse_line(ls[n - 1])->0.key == x);
            } else {
                let j = choose|j: int| 0 <= j < n - 1 && (#[trigger] parse_line(ls[j]))->0.key == x;
                assert(parse_line(ls[j])->0.key == x);
            }
        }
        assert forall|m: int| 0 <= m < kept2.len() implies {
            let k = #[trigger] kept2[m];
            &&& !k.contains('\n')
            &&& strip_cr(k) == k
            &&& parse_line(k) is Some
            &&& (parse_line(k)->0.username == u ==> !keys.contains(parse_line(k)->0.key))
        } by {
            if m < kept.len() {
                assert(kept2[m] == kept[m]);
            } else {
                assert(kept2[m] == l);
                assert(!(r.username == u && first_index(left, r.key) is Some));
                if r.username == u && keys.contains(r.key) {
                    assert(!left.contains(r.key));
                    let j = choose|j: int|
                        0 <= j < n - 1 && (#[trigger] parse_line(ls[j]))->0.key == r.key;
                    assert(parse_line(ls[j])->0.key != parse_line(ls[n - 1])->0.key);
                }
            }
        }
    }
}

/// Deleting over lines none of whose routes of user `u` has a key among the
/// keys keeps every line and deletes nothing.
proof fn lemma_deletes_keep_all(
    kl: Seq<Seq<char>>,
    keys: Seq<Seq<char>>,
    u: Seq<char>,
    p: Seq<char>,
)
    requires
        forall|m: int|
            0 <= m < kl.len() ==> {
                let l = #[trigger] kl[m];
                &&& parse_line(l) is Some
                &&& (parse_line(l)->0.username == u ==> !keys.contains(parse_line(l)->0.key))
            },
    ensures
        deletes_run(kl, keys, u, p) == DeletesState::Running(
            keys,
            Seq::<Seq<char>>::empty(),
            false,
            join_lines(kl),
        ),
    decreases kl.len(),
{
    if kl.len() > 0 {
        let prev = kl.drop_last();
        assert forall|m: int| 0 <= m < prev.len() implies {
            let l = #[trigger] prev[m];
            &&& parse_line(l) is Some
            &&& (parse_line(l)->0.username == u ==> !keys.contains(parse_line(l)->0.key))
        } by {
            assert(prev[m] == kl[m]);
        }
        lemma_deletes_keep_all(prev, keys, u, p);
        let l = kl.last();
        assert(kl[kl.len() - 1] == l);
        lemma_first_index_found(keys, parse_line(l)->0.key);
    }
}

/// Lines without line breaks or a final `'\r'`, joined, read back as the
/// same lines.
proof fn lemma_lines_of_join(kl: Seq<Seq<char>>)
    requires
        forall|m: int| 0 <= m < kl.len() ==> !(#[trigger] kl[m]).contains('\n'),
        forall|m: int| 0 <= m < kl.len() ==> strip_cr(#[trigger] kl[m]) == kl[m],
    ensures
        lines(join_lines(kl)) == kl,
        at_line_start(join_lines(kl)),
    decreases kl.len(),
{
    if kl.len() == 0 {
        assert(lines(Seq::<char>::empty()) =~= Seq::<Seq<char>>::empty());
    } else {
        let prev = kl.drop_last();
        assert forall|m: int| 0 <= m < prev.len() implies !(#[trigger] prev[m]).contains('\n') && strip_cr(prev[m]) == prev[m] by {
            assert(prev[m] == kl[m]);
        }
        lemma_lines_of_join(prev);
        let l = kl.last();
        assert(kl[kl.len() - 1] == l);
        lemma_lines_append_line(join_lines(prev), l);
        assert(prev.push(l) =~= kl);
    }
}

/// Deleting several webhooks a second time changes nothing: after it
/// succeeds on a routes file whose routes have distinct keys and none of
/// whose kept lines ends with `'\r'` (a line ending with `'\r'` is one of
/// the user's routes under a key to delete), the same request on the new
/// contents deletes no key and keeps the contents as they are.
pub proof fn lemma_deletes_repeat_changes_nothing(
    c: Seq<char>,
    keys: Seq<Seq<char>>,
    u: Seq<char>,
    p: Seq<char>,
)
    requires
        forall|i: int|
            0 <= i < lines(c).len() && strip_cr(#[trigger] lines(c)[i]) != lines(c)[i]
                ==> (parse_line(lines(c)[i]) matches Some(r) && r.username == u && keys.contains(
                r.key,
            )),
        deletes_run(lines(c), keys, u, p) is Running,
        routes_of(c) matches Some(rs) ==> forall|i: int, j: int|
            0 <= i < j < rs.len() ==> (#[trigger] rs[i]).key != (#[trigger] rs[j]).key,
    ensures
        deletes_run(lines(deletes_run(lines(c), keys, u, p)->Running_3), keys, u, p)
            == DeletesState::Running(
            keys,
            Seq::<Seq<char>>::empty(),
            false,
            deletes_run(lines(c), keys, u, p)->Running_3,
        ),
{
    let ls = lines(c);
    lemma_lines_no_break(c);
    assert(ls.take(ls.len() as int) =~= ls);
    lemma_deletes_parse(ls, ls.len() as int, keys, u, p);
    lemma_deletes_sweep(ls, ls.len() as int, keys, u, p);
    assert(forall|i: int| 0 <= i < ls.len() ==> #[trigger] parse_line(ls[i]) is Some);
    assert(routes_of(c) is Some);
    let rs = routes_of(c)->0;
    assert forall|i: int, j: int|
        0 <= i < j < ls.len() implies (#[trigger] parse_line(ls[i]))->0.key != (
        #[trigger] parse_line(ls[j]))->0.key by {
        assert(rs[i] == parse_line(ls[i])->0);
        assert(rs[j] == parse_line(ls[j])->0);
    }
    assert forall|i: int|
        0 <= i < ls.len() && strip_cr(#[trigger] ls[i]) != ls[i] implies parse_line(
        ls[i],
    )->0.username == u && keys.contains(parse_line(ls[i])->0.key) by {}
    lemma_sweep_kept(ls, ls.len() as int, keys, u);
    let kl = sweep(ls, keys, u).1;
    lemma_lines_of_join(kl);
    lemma_deletes_keep_all(kl, keys, u, p);
}

/// While deleting goes on, every line so far is a route.
proof fn lemma_deletes_parse(
    ls: Seq<Seq<char>>,
    n: int,
    keys: Seq<Seq<char>>,
    u: Seq<char>,
    p: Seq<char>,
)
    requires
        0 <= n <= ls.len(),
        deletes_run(ls.take(n), keys, u, p) is Running,
    ensures
        forall|i: int| 0 <= i < n ==> #[trigger] parse_line(ls[i]) is Some,
    decreases n,
{
    if n > 0 {
        let pre = ls.take(n);
        let prev = ls.take(n - 1);
        assert(pre.drop_last() =~= prev);
        assert(pre.last() == ls[n - 1]);
        let st = deletes_run(prev, keys, u, p);
        assert(deletes_run(pre, keys, u, p) == deletes_step(st, ls[n - 1], u, p));
        assert(st is Running);
        lemma_deletes_parse(ls, n - 1, keys, u, p);
    }
}

} // verus!
