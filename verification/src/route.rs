//! Webhook routes and the routes file: one route per line, its five fields
//! `key, url, hash, salt, username` separated by `", "`.
use vstd::prelude::*;
use crate::text::{
    at_line_start, chars_of, has_field_sep, lemma_first_line, lemma_lines_append_line,
    lemma_lines_concat, lemma_lines_no_break, lemma_split_fields_concat,
    lemma_split_fields_nonempty, lemma_split_fields_pieces, lemma_split_fields_prefix,
    lemma_split_fields_single, lemma_split_on_concat, lemma_split_on_last, lemma_split_on_no_sep,
    lemma_split_on_nonempty, lemma_split_on_prefix, lines, push_char, split_fields,
    split_fields_exec, split_lines, split_on, string_from, strip_cr, views,
};

verus! {

/// A webhook route: the key it is reached under, the URL it forwards to, and
/// the owner's name with the hash and salt of the owner's password.
#[derive(Debug, Clone)]
pub struct Route {
    pub key: String,
    pub url: String,
    pub username: String,
    pub hash: String,
    pub salt: String,
}

/// The mathematical value of a [`Route`].
pub struct RouteView {
    pub key: Seq<char>,
    pub url: Seq<char>,
    pub username: Seq<char>,
    pub hash: Seq<char>,
    pub salt: Seq<char>,
}

impl View for Route {
    type V = RouteView;

    open spec fn view(&self) -> RouteView {
        RouteView {
            key: self.key@,
            url: self.url@,
            username: self.username@,
            hash: self.hash@,
            salt: self.salt@,
        }
    }
}

/// The views of a sequence of routes.
pub open spec fn route_views(rs: Seq<Route>) -> Seq<RouteView> {
    rs.map_values(|r: Route| r@)
}

/// The field separator `", "`.
pub open spec fn field_sep() -> Seq<char> {
    seq![',', ' ']
}

/// A route line without its line break: the five fields joined by `", "`.
pub open spec fn line_body(r: RouteView) -> Seq<char> {
    r.key + field_sep() + r.url + field_sep() + r.hash + field_sep() + r.salt + field_sep()
        + r.username
}

/// The line that records a route in the routes file.
pub open spec fn line_of(r: RouteView) -> Seq<char> {
    line_body(r).push('\n')
}

/// The route that a line describes: its first five `", "`-separated fields
/// (any further ones are ignored), or `None` when it has fewer than five.
pub open spec fn parse_line(l: Seq<char>) -> Option<RouteView> {
    let f = split_fields(l);
    if f.len() < 5 {
        None
    } else {
        Some(RouteView { key: f[0], url: f[1], hash: f[2], salt: f[3], username: f[4] })
    }
}

/// The routes of a routes file, or `None` when one of its lines is not a
/// route.
pub open spec fn routes_of(c: Seq<char>) -> Option<Seq<RouteView>> {
    let ls = lines(c);
    if forall|i: int| 0 <= i < ls.len() ==> #[trigger] parse_line(ls[i]) is Some {
        Some(ls.map_values(|l: Seq<char>| parse_line(l)->0))
    } else {
        None
    }
}

/// A route whose line reads back as the same route: no field holds `", "`
/// or a line break, and the name does not end with `'\r'`.
pub open spec fn route_is_clean(r: RouteView) -> bool {
    &&& !has_field_sep(r.key) && !has_field_sep(r.url) && !has_field_sep(r.hash)
    &&& !has_field_sep(r.salt) && !has_field_sep(r.username)
    &&& !r.key.contains('\n') && !r.url.contains('\n') && !r.hash.contains('\n')
    &&& !r.salt.contains('\n') && !r.username.contains('\n')
    &&& !(r.username.len() > 0 && r.username.last() == '\r')
}

/// A route whose line starts with its key, URL, hash and salt as they are:
/// none of them holds `", "` or a line break.
pub open spec fn route_key_readable(r: RouteView) -> bool {
    &&& !has_field_sep(r.key) && !has_field_sep(r.url) && !has_field_sep(r.hash)
    &&& !has_field_sep(r.salt)
    &&& !r.key.contains('\n') && !r.url.contains('\n') && !r.hash.contains('\n')
    &&& !r.salt.contains('\n')
}

/// A route whose line reads back its key, URL, hash and salt as one route:
/// they are readable and the name holds no line break (it may hold `", "`
/// or end with `'\r'`, and then reads back otherwise).
pub open spec fn route_is_readable(r: RouteView) -> bool {
    route_key_readable(r) && !r.username.contains('\n')
}

/// The URL of the first route with key `k`, if there is one.
pub open spec fn lookup_url(rs: Seq<RouteView>, k: Seq<char>) -> Option<Seq<char>>
    decreases rs.len(),
{
    if rs.len() == 0 {
        None
    } else {
        match lookup_url(rs.drop_last(), k) {
            Some(u) => Some(u),
            None => if rs.last().key == k {
                Some(rs.last().url)
            } else {
                None
            },
        }
    }
}

/// Parses one line of the routes file.
pub fn parse_route_line(line: &Vec<char>) -> (r: Option<Route>)
    ensures
        match r {
            Some(route) => parse_line(line@) == Some(route@),
            None => parse_line(line@) is None,
        },
{
    let f = split_fields_exec(line);
    if f.len() < 5 {
        return None;
    }
    proof {
        assert(views(f@)[0] == f@[0]@);
    }
    let key = string_from(&f[0]);
    let url = string_from(&f[1]);
    let hash = string_from(&f[2]);
    let salt = string_from(&f[3]);
    let username = string_from(&f[4]);
    proof {
        assert(views(f@)[1] == f@[1]@);
        assert(views(f@)[2] == f@[2]@);
        assert(views(f@)[3] == f@[3]@);
        assert(views(f@)[4] == f@[4]@);
    }
    Some(Route { key, url, username, hash, salt })
}

/// The routes recorded in the contents of a routes file, or `None` when a
/// line of it has fewer than five fields.
pub fn parse_routes(contents: &str) -> (r: Option<Vec<Route>>)
    ensures
        match r {
            Some(rs) => routes_of(contents@) == Some(route_views(rs@)),
            None => routes_of(contents@) is None,
        },
{
    let chars = chars_of(contents);
    let ls = split_lines(&chars);
    let ghost lv = lines(contents@);
    let mut out: Vec<Route> = Vec::new();
    let mut i: usize = 0;
    while i < ls.len()
        invariant
            views(ls@) == lv,
            lv == lines(contents@),
            i <= ls.len(),
            out@.len() == i,
            forall|j: int| 0 <= j < i ==> #[trigger] parse_line(lv[j]) == Some(out@[j]@),
        decreases ls.len() - i,
    {
        assert(views(ls@)[i as int] == ls@[i as int]@);
        match parse_route_line(&ls[i]) {
            Some(route) => {
                out.push(route);
            },
            None => {
                assert(!(parse_line(lv[i as int]) is Some));
                return None;
            },
        }
        i += 1;
    }
    assert forall|j: int| 0 <= j < lv.len() implies #[trigger] parse_line(lv[j]) is Some by {
        assert(parse_line(lv[j]) == Some(out@[j]@));
    }
    assert(lv.map_values(|l: Seq<char>| parse_line(l)->0) =~= route_views(out@));
    Some(out)
}

/// The line that records `route` in the routes file.
pub fn route_line(route: &Route) -> (s: String)
    ensures
        s@ == line_of(route@),
{
    let mut s = route.key.clone();
    push_char(&mut s, ',');
    push_char(&mut s, ' ');
    s.append(route.url.as_str());
    push_char(&mut s, ',');
    push_char(&mut s, ' ');
    s.append(route.hash.as_str());
    push_char(&mut s, ',');
    push_char(&mut s, ' ');
    s.append(route.salt.as_str());
    push_char(&mut s, ',');
    push_char(&mut s, ' ');
    s.append(route.username.as_str());
    push_char(&mut s, '\n');
    assert(s@ =~= line_of(route@));
    s
}

/// The URL of the first route whose key is `webhook_key`; `Err(0)` when no
/// route has it.
pub fn get_route_from_key(routes: &Vec<Route>, webhook_key: &String) -> (r: Result<String, u8>)
    ensures
        match lookup_url(route_views(routes@), webhook_key@) {
            Some(u) => r matches Ok(url) && url@ == u,
            None => r == Err::<String, u8>(0),
        },
        r matches Ok(url) ==> exists|i: int|
            0 <= i < routes@.len() && (#[trigger] routes@[i]).key@ == webhook_key@ && routes@[i].url@
                == url@ && forall|j: int| 0 <= j < i ==> (#[trigger] routes@[j]).key@ != webhook_key@,
        r is Err ==> r == Err::<String, u8>(0) && forall|i: int|
            0 <= i < routes@.len() ==> (#[trigger] routes@[i]).key@ != webhook_key@,
{
    let ghost rs = route_views(routes@);
    let ghost k = webhook_key@;
    let mut i: usize = 0;
    while i < routes.len()
        invariant
            rs == route_views(routes@),
            k == webhook_key@,
            i <= routes.len(),
            lookup_url(rs.take(i as int), k) is None,
            forall|j: int| 0 <= j < i ==> (#[trigger] routes@[j]).key@ != k,
        decreases routes.len() - i,
    {
        assert(rs.take(i + 1).drop_last() =~= rs.take(i as int));
        assert(rs[i as int] == routes@[i as int]@);
        if routes[i].key == *webhook_key {
            assert(lookup_url(rs.take(i + 1), k) == Some(rs[i as int].url));
            proof {
                lemma_lookup_prefix(rs, i + 1, k);
            }
            let url = routes[i].url.clone();
            assert(routes@[i as int].key@ == k && routes@[i as int].url@ == url@);
            return Ok(url);
        }
        i += 1;
    }
    assert(rs.take(routes.len() as int) =~= rs);
    Err(0)
}

/// Looking a key up finds the first route whose key equals it exactly: the
/// URL found is that route's, and nothing is found only when no route has
/// that key.
pub proof fn lemma_lookup_url_first_exact(rs: Seq<RouteView>, k: Seq<char>)
    ensures
        lookup_url(rs, k) matches Some(u) ==> exists|i: int|
            0 <= i < rs.len() && (#[trigger] rs[i]).key == k && rs[i].url == u && forall|j: int|
                0 <= j < i ==> (#[trigger] rs[j]).key != k,
        lookup_url(rs, k) is None ==> forall|i: int| 0 <= i < rs.len() ==> (#[trigger] rs[i]).key
            != k,
    decreases rs.len(),
{
    if rs.len() > 0 {
        let prev = rs.drop_last();
        lemma_lookup_url_first_exact(prev, k);
        match lookup_url(prev, k) {
            Some(u) => {
                let i = choose|i: int|
                    0 <= i < prev.len() && (#[trigger] prev[i]).key == k && prev[i].url == u
                        && forall|j: int| 0 <= j < i ==> (#[trigger] prev[j]).key != k;
                assert(rs[i] == prev[i]);
                assert forall|j: int| 0 <= j < i implies (#[trigger] rs[j]).key != k by {
                    assert(rs[j] == prev[j]);
                }
            },
            None => {
                assert forall|j: int| 0 <= j < rs.len() - 1 implies (#[trigger] rs[j]).key != k by {
                    assert(rs[j] == prev[j]);
                }
                assert(rs[rs.len() - 1] == rs.last());
            },
        }
    }
}

/// A match found in a prefix is the match of the whole sequence.
proof fn lemma_lookup_prefix(rs: Seq<RouteView>, n: int, k: Seq<char>)
    requires
        0 <= n <= rs.len(),
        lookup_url(rs.take(n), k) is Some,
    ensures
        lookup_url(rs, k) == lookup_url(rs.take(n), k),
    decreases rs.len() - n,
{
    if n < rs.len() {
        assert(rs.take(n + 1).drop_last() =~= rs.take(n));
        lemma_lookup_prefix(rs, n + 1, k);
    } else {
        assert(rs.take(n) =~= rs);
    }
}

/// The line of a clean route parses back to that route.
pub proof fn lemma_parse_line_of(r: RouteView)
    requires
        route_is_clean(r),
    ensures
        parse_line(line_body(r)) == Some(r),
{
    let sep = field_sep();
    let t4 = r.username;
    let t3 = r.salt + sep + t4;
    let t2 = r.hash + sep + t3;
    let t1 = r.url + sep + t2;
    assert(line_body(r) =~= r.key + sep + t1);
    lemma_split_fields_single(t4);
    lemma_split_fields_prefix(r.salt, t4);
    lemma_split_fields_prefix(r.hash, t3);
    lemma_split_fields_prefix(r.url, t2);
    lemma_split_fields_prefix(r.key, t1);
    assert(split_fields(line_body(r)) =~= seq![r.key, r.url, r.hash, r.salt, r.username]);
}

/// A route line holds no line break when no field does.
proof fn lemma_body_no_break(r: RouteView)
    requires
        !r.key.contains('\n'),
        !r.url.contains('\n'),
        !r.hash.contains('\n'),
        !r.salt.contains('\n'),
        !r.username.contains('\n'),
    ensures
        !line_body(r).contains('\n'),
{
    let body = line_body(r);
    if body.contains('\n') {
        let i = choose|i: int| 0 <= i < body.len() && body[i] == '\n';
        let a = r.key.len();
        let b = a + 2 + r.url.len();
        let c2 = b + 2 + r.hash.len();
        let d = c2 + 2 + r.salt.len();
        if i < a {
            assert(r.key[i] == '\n');
        } else if i < a + 2 {
        } else if i < b {
            assert(r.url[i - a - 2] == '\n');
        } else if i < b + 2 {
        } else if i < c2 {
            assert(r.hash[i - b - 2] == '\n');
        } else if i < c2 + 2 {
        } else if i < d {
            assert(r.salt[i - c2 - 2] == '\n');
        } else if i < d + 2 {
        } else {
            assert(r.username[i - d - 2] == '\n');
        }
    }
}

/// Writing the line of a clean route to a text at a line start adds that
/// route's line, without its line break, as the text's last line.
pub proof fn lemma_lines_after_write(c: Seq<char>, r: RouteView)
    requires
        at_line_start(c),
        route_is_clean(r),
    ensures
        lines(c + line_of(r)) == lines(c).push(line_body(r)),
        parse_line(line_body(r)) == Some(r),
{
    let body = line_body(r);
    lemma_body_no_break(r);
    lemma_lines_append_line(c, body);
    assert(strip_cr(body) == body) by {
        if body.len() > 0 && body.last() == '\r' {
            if r.username.len() > 0 {
                assert(body.last() == r.username.last());
            } else {
                assert(body.last() == ' ');
            }
        }
    }
    lemma_parse_line_of(r);
}

/// The line of a readable route, as the routes file reads it back (its
/// `'\r'` removed), parses to a route with the same key, URL, hash and salt.
proof fn lemma_read_back(r: RouteView)
    requires
        route_is_readable(r),
    ensures
        !line_body(r).contains('\n'),
        parse_line(strip_cr(line_body(r))) matches Some(x) && x.key == r.key && x.url == r.url
            && x.hash == r.hash && x.salt == r.salt,
{
    lemma_body_no_break(r);
    let sep = field_sep();
    let body = line_body(r);
    let t4 = strip_cr(r.username);
    let t3 = r.salt + sep + t4;
    let t2 = r.hash + sep + t3;
    let t1 = r.url + sep + t2;
    assert(strip_cr(body) =~= r.key + sep + t1) by {
        if r.username.len() > 0 {
            assert(body.last() == r.username.last());
        } else {
            assert(body.last() == ' ');
        }
    }
    lemma_split_fields_nonempty(t4);
    lemma_split_fields_prefix(r.salt, t4);
    lemma_split_fields_prefix(r.hash, t3);
    lemma_split_fields_prefix(r.url, t2);
    lemma_split_fields_prefix(r.key, t1);
    let f = split_fields(strip_cr(body));
    assert(f =~= seq![r.key, r.url, r.hash, r.salt] + split_fields(t4));
    assert(f[0] == r.key && f[1] == r.url && f[2] == r.hash && f[3] == r.salt);
}

/// Appending a line and its line break to a routes file at a line start
/// adds the route of that line, as the file reads it back, to the routes the
/// file records.
proof fn lemma_routes_append_body(c: Seq<char>, body: Seq<char>)
    requires
        at_line_start(c),
        !body.contains('\n'),
        parse_line(strip_cr(body)) is Some,
    ensures
        lines(c + body.push('\n')) == lines(c).push(strip_cr(body)),
        routes_of(c + body.push('\n')) == match routes_of(c) {
            Some(rs) => Some(rs.push(parse_line(strip_cr(body))->0)),
            None => None,
        },
{
    lemma_lines_append_line(c, body);
    let l = strip_cr(body);
    let ls = lines(c);
    let ls2 = lines(c + body.push('\n'));
    assert(ls2 == ls.push(l));
    if forall|i: int| 0 <= i < ls.len() ==> #[trigger] parse_line(ls[i]) is Some {
        assert forall|i: int| 0 <= i < ls2.len() implies #[trigger] parse_line(ls2[i]) is Some by {
            if i < ls.len() {
                assert(ls2[i] == ls[i]);
            }
        }
        assert(ls2.map_values(|m: Seq<char>| parse_line(m)->0) =~= ls.map_values(
            |m: Seq<char>| parse_line(m)->0,
        ).push(parse_line(l)->0));
    } else {
        let j = choose|j: int| 0 <= j < ls.len() && !(#[trigger] parse_line(ls[j]) is Some);
        assert(ls2[j] == ls[j]);
    }
}

/// Writing the line of a readable route to a routes file at a line start
/// adds one route, with that key, URL, hash and salt, to the routes the file
/// records.
pub proof fn lemma_routes_append_readable(c: Seq<char>, r: RouteView)
    requires
        at_line_start(c),
        route_is_readable(r),
    ensures
        routes_of(c + line_of(r)) == match routes_of(c) {
            Some(rs) => Some(rs.push(parse_line(strip_cr(line_body(r)))->0)),
            None => None,
        },
        parse_line(strip_cr(line_body(r))) matches Some(x) && x.key == r.key && x.url == r.url
            && x.hash == r.hash && x.salt == r.salt,
{
    lemma_read_back(r);
    lemma_routes_append_body(c, line_body(r));
}

/// Appending a route line (a line that parses, without a line break, not
/// ending with `'\r'`) and its line break to a routes file at a line start
/// adds that line's route to the routes the file records.
pub proof fn lemma_routes_append_line(c: Seq<char>, l: Seq<char>)
    requires
        at_line_start(c),
        !l.contains('\n'),
        strip_cr(l) == l,
        parse_line(l) is Some,
    ensures
        lines(c + l.push('\n')) == lines(c).push(l),
        routes_of(c + l.push('\n')) == match routes_of(c) {
            Some(rs) => Some(rs.push(parse_line(l)->0)),
            None => None,
        },
{
    lemma_routes_append_body(c, l);
}

/// Reading back what was written: appending the line of a clean route to a
/// routes file that ends at a line start adds exactly that route to the
/// routes the file records.
pub proof fn lemma_routes_append(c: Seq<char>, r: RouteView)
    requires
        at_line_start(c),
        route_is_clean(r),
    ensures
        routes_of(c + line_of(r)) == match routes_of(c) {
            Some(rs) => Some(rs.push(r)),
            None => None,
        },
{
    lemma_lines_after_write(c, r);
    lemma_routes_append_line(c, line_body(r));
}

/// A route written under a key that no recorded route has is then found by
/// that key, whatever its name, as long as the routes file still reads as
/// routes (which it does when the name holds no line break).
pub proof fn lemma_written_route_found(c: Seq<char>, r: RouteView)
    requires
        at_line_start(c),
        route_key_readable(r),
        routes_of(c) is Some,
        lookup_url(routes_of(c)->0, r.key) is None,
        !r.username.contains('\n') || routes_of(c + line_of(r)) is Some,
    ensures
        routes_of(c + line_of(r)) is Some,
        lookup_url(routes_of(c + line_of(r))->0, r.key) == Some(r.url),
{
    if !r.username.contains('\n') {
        lemma_routes_append_readable(c, r);
    }
    let rs = routes_of(c)->0;
    let head = RouteView { username: Seq::empty(), ..r };
    lemma_body_no_break(head);
    let x = line_body(head);
    assert(line_of(r) =~= x + r.username.push('\n'));
    assert(x.last() == ' ');
    let y = r.username;
    lemma_first_line(x, y);
    lemma_lines_concat(c, line_of(r));
    let t = strip_cr(split_on(y.push('\n'), '\n')[0]);
    let first = lines(line_of(r))[0];
    assert(first == x + t);
    let sep = field_sep();
    let t3 = r.salt + sep + t;
    let t2 = r.hash + sep + t3;
    let t1 = r.url + sep + t2;
    assert(first =~= r.key + sep + t1);
    lemma_split_fields_nonempty(t);
    lemma_split_fields_prefix(r.salt, t);
    lemma_split_fields_prefix(r.hash, t3);
    lemma_split_fields_prefix(r.url, t2);
    lemma_split_fields_prefix(r.key, t1);
    let f = split_fields(first);
    assert(f =~= seq![r.key, r.url, r.hash, r.salt] + split_fields(t));
    assert(f[0] == r.key && f[1] == r.url);
    let ls = lines(c);
    let ls2 = lines(c + line_of(r));
    assert(ls2[ls.len() as int] == first);
    let rs2 = routes_of(c + line_of(r))->0;
    let n: int = rs.len() as int + 1;
    assert(rs2[rs.len() as int] == parse_line(first)->0);
    assert(rs2.take(n).drop_last() =~= rs) by {
        assert forall|i: int| 0 <= i < rs.len() implies rs2[i] == rs[i] by {
            assert(ls2[i] == ls[i]);
        }
    }
    assert(lookup_url(rs2.take(n), r.key) == Some(r.url));
    lemma_lookup_prefix(rs2, n, r.key);
}

/// Writing the line of a route to a routes file that does not end at a line
/// start glues the line to the file's last line: the routes before that
/// line stay; the last route keeps its key, URL, hash and salt, and its name
/// gains the written key where the last line had exactly five fields (with
/// more it stays as it was); the written route is not read as a route of
/// its own, and no route follows unless its name holds a line break.
#[verifier::spinoff_prover]
#[verifier::rlimit(40)]
pub proof fn lemma_routes_append_merged(c: Seq<char>, r: RouteView)
    requires
        !at_line_start(c),
        routes_of(c) is Some,
        route_key_readable(r),
        r.key.len() > 0,
        r.key[0] != ' ',
        routes_of(c + line_of(r)) is Some,
    ensures
        ({
            let rs = routes_of(c)->0;
            let rs2 = routes_of(c + line_of(r))->0;
            let n = rs.len() as int;
            let last = rs[n - 1];
            &&& n >= 1
            &&& rs2.len() >= n
            &&& forall|i: int| 0 <= i < n - 1 ==> #[trigger] rs2[i] == rs[i]
            &&& rs2[n - 1] == if split_fields(lines(c).last()).len() > 5 {
                last
            } else {
                RouteView { username: last.username + r.key, ..last }
            }
            &&& !r.username.contains('\n') ==> rs2.len() == n
        }),
{
    let pa = split_on(c, '\n');
    lemma_split_on_last(c, '\n');
    let la = pa.last();
    let head = RouteView { username: Seq::empty(), ..r };
    lemma_body_no_break(head);
    let x = line_body(head);
    assert(x.last() == ' ');
    let y = r.username;
    let yn = y.push('\n');
    assert(line_of(r) =~= x + yn);
    lemma_split_on_prefix(x, yn, '\n');
    lemma_split_on_nonempty(y, '\n');
    assert(yn.drop_last() =~= y);
    let qq = split_on(yn, '\n');
    assert(qq == split_on(y, '\n').push(Seq::<char>::empty()));
    let q = split_on(x + yn, '\n');
    assert(q == qq.update(0, x + qq[0]));
    lemma_split_on_concat(c, x + yn, '\n');
    let pp = split_on(c + line_of(r), '\n');
    assert(pp == pa.drop_last() + q.update(0, la + q[0]));
    let ls = lines(c);
    let ls2 = lines(c + line_of(r));
    let n = pa.len() as int;
    assert(ls == pa.drop_last().map_values(|l: Seq<char>| strip_cr(l)).push(la));
    assert(pp.last() == qq.last());
    assert(ls2 == pp.drop_last().map_values(|l: Seq<char>| strip_cr(l)));
    assert(ls.len() == n && ls[n - 1] == la);
    assert(ls2.len() == pp.len() - 1);
    assert(forall|i: int| 0 <= i < n - 1 ==> #[trigger] ls2[i] == ls[i]) by {
        assert forall|i: int| 0 <= i < n - 1 implies #[trigger] ls2[i] == ls[i] by {
            assert(pp[i] == pa[i]);
        }
    }
    let t = strip_cr(qq[0]);
    let b = x + t;
    let merged = la + b;
    assert(pp[n - 1] == la + (x + qq[0]));
    assert(ls2[n - 1] == strip_cr(pp[n - 1]));
    if qq[0].len() > 0 {
        assert((la + (x + qq[0])).last() == qq[0].last());
        assert((la + (x + qq[0])).drop_last() =~= la + (x + qq[0].drop_last()));
    } else {
        assert(la + (x + qq[0]) =~= la + x);
        assert((la + x).last() == ' ');
    }
    assert(ls2[n - 1] =~= merged);
    if !y.contains('\n') {
        lemma_split_on_no_sep(y, '\n');
        assert(ls2.len() == n);
    }
    let sep = field_sep();
    let t3 = r.salt + sep + t;
    let t2 = r.hash + sep + t3;
    let t1 = r.url + sep + t2;
    assert(b =~= r.key + sep + t1);
    assert(b[0] == r.key[0]);
    lemma_split_fields_nonempty(t);
    lemma_split_fields_prefix(r.salt, t);
    lemma_split_fields_prefix(r.hash, t3);
    lemma_split_fields_prefix(r.url, t2);
    lemma_split_fields_prefix(r.key, t1);
    let fb = split_fields(b);
    assert(fb =~= seq![r.key, r.url, r.hash, r.salt] + split_fields(t));
    lemma_split_fields_concat(la, b);
    let f = split_fields(la);
    let m = split_fields(merged);
    assert(m == f.drop_last() + fb.update(0, f.last() + r.key));
    let rs = routes_of(c)->0;
    let rs2 = routes_of(c + line_of(r))->0;
    assert(parse_line(ls[n - 1]) is Some);
    assert(f.len() >= 5);
    assert(rs[n - 1] == parse_line(la)->0);
    assert(rs2[n - 1] == parse_line(merged)->0);
    if f.len() > 5 {
        assert(m[0] == f[0] && m[1] == f[1] && m[2] == f[2] && m[3] == f[3] && m[4] == f[4]);
    } else {
        assert(m[0] == f[0] && m[1] == f[1] && m[2] == f[2] && m[3] == f[3]);
        assert(m[4] == f[4] + r.key);
    }
    assert forall|i: int| 0 <= i < n - 1 implies #[trigger] rs2[i] == rs[i] by {
        assert(ls2[i] == ls[i]);
    }
}

/// No name of a route that a routes file records holds a line break.
pub proof fn lemma_route_names_no_break(c: Seq<char>)
    requires
        routes_of(c) is Some,
    ensures
        forall|i: int|
            0 <= i < routes_of(c)->0.len() ==> !(#[trigger] routes_of(c)->0[i]).username.contains(
                '\n',
            ),
{
    let ls = lines(c);
    let rs = routes_of(c)->0;
    lemma_lines_no_break(c);
    assert forall|i: int| 0 <= i < rs.len() implies !(#[trigger] rs[i]).username.contains('\n') by {
        assert(!ls[i].contains('\n'));
        assert(parse_line(ls[i]) is Some);
        lemma_split_fields_pieces(ls[i], '\n');
        assert(rs[i].username == split_fields(ls[i])[4]);
    }
}

} // verus!
