//! Forwarding a request that arrives on a webhook to the webhook's URL: the
//! request to send is decided here; sending it is the server's part.
use vstd::prelude::*;
use crate::route::{get_route_from_key, lookup_url, route_views, Route};

verus! {

/// The HTTP method of a forwarded request.
#[derive(PartialEq, Eq, Structural, Clone, Copy, Debug)]
pub enum Method {
    Get,
    Post,
    Put,
    Patch,
    Delete,
}

/// The headers of an incoming request, as names and values in order.
#[derive(Debug)]
pub struct HeaderList {
    keys: Vec<String>,
    values: Vec<String>,
    length: usize,
}

impl View for HeaderList {
    type V = Seq<(Seq<char>, Seq<char>)>;

    closed spec fn view(&self) -> Seq<(Seq<char>, Seq<char>)> {
        Seq::new(self.length as nat, |i: int| (self.keys@[i]@, self.values@[i]@))
    }
}

impl HeaderList {
    /// Names and values line up, and `length` counts them.
    #[verifier::type_invariant]
    spec fn wf(&self) -> bool {
        self.keys@.len() == self.length && self.values@.len() == self.length
    }

    /// A list without headers.
    pub fn new() -> (h: HeaderList)
        ensures
            h@ == Seq::<(Seq<char>, Seq<char>)>::empty(),
    {
        let h = HeaderList { keys: Vec::new(), values: Vec::new(), length: 0 };
        assert(h@ =~= Seq::<(Seq<char>, Seq<char>)>::empty());
        h
    }

    /// Adds a header at the end.
    pub fn push(&mut self, name: String, value: String)
        requires
            old(self)@.len() < usize::MAX,
        ensures
            final(self)@ == old(self)@.push((name@, value@)),
    {
        proof {
            use_type_invariant(&*self);
        }
        let ghost before = self@;
        let mut taken = HeaderList::new();
        std::mem::swap(self, &mut taken);
        proof {
            use_type_invariant(&taken);
        }
        let HeaderList { mut keys, mut values, length } = taken;
        keys.push(name);
        values.push(value);
        *self = HeaderList { keys, values, length: length + 1 };
        assert(self@ =~= before.push((name@, value@)));
    }

    /// The number of headers.
    pub fn len(&self) -> (n: usize)
        ensures
            n == self@.len(),
    {
        self.length
    }

    /// The name and value of the header at position `i`.
    pub fn get(&self, i: usize) -> (r: (&String, &String))
        requires
            i < self@.len(),
        ensures
            (r.0@, r.1@) == self@[i as int],
    {
        proof {
            use_type_invariant(self);
        }
        (&self.keys[i], &self.values[i])
    }
}

/// The request to send to a webhook's URL.
#[derive(Debug)]
pub struct ForwardRequest {
    pub method: Method,
    pub url: String,
    pub body: String,
    pub headers: Vec<(String, String)>,
}

/// The views of name and value pairs.
pub open spec fn pair_views(v: Seq<(String, String)>) -> Seq<(Seq<char>, Seq<char>)> {
    v.map_values(|p: (String, String)| (p.0@, p.1@))
}

/// The request to forward for a request on the webhook `webhook_key`: the
/// same method, body and headers, sent to the URL of the first route with
/// that key; "Invalid Webhook Key" when no route has it.
pub fn forward_request(
    routes: &Vec<Route>,
    webhook_key: &String,
    method: Method,
    data: String,
    headers: &HeaderList,
) -> (r: Result<ForwardRequest, String>)
    ensures
        match lookup_url(route_views(routes@), webhook_key@) {
            Some(u) => r matches Ok(f) && f.method == method && f.url@ == u && f.body@ == data@
                && pair_views(f.headers@) == headers@,
            None => r matches Err(m) && m@ == "Invalid Webhook Key"@,
        },
        r matches Ok(f) ==> exists|i: int|
            0 <= i < routes@.len() && (#[trigger] routes@[i]).key@ == webhook_key@ && routes@[i].url@
                == f.url@ && forall|j: int| 0 <= j < i ==> (#[trigger] routes@[j]).key@ != webhook_key@,
        r is Err ==> forall|i: int|
            0 <= i < routes@.len() ==> (#[trigger] routes@[i]).key@ != webhook_key@,
{
    let url = match get_route_from_key(routes, webhook_key) {
        Ok(n) => n,
        Err(_) => {
            return Err(String::from_str("Invalid Webhook Key"));
        },
    };
    let mut pairs: Vec<(String, String)> = Vec::new();
    let mut i: usize = 0;
    while i < headers.len()
        invariant
            i <= headers@.len(),
            pair_views(pairs@) == headers@.take(i as int),
        decreases headers@.len() - i,
    {
        let (name, value) = headers.get(i);
        let ghost before = pair_views(pairs@);
        pairs.push((name.clone(), value.clone()));
        assert(pair_views(pairs@) =~= before.push((name@, value@)));
        assert(headers@.take(i + 1) =~= headers@.take(i as int).push(headers@[i as int]));
        i += 1;
    }
    assert(headers@.take(headers@.len() as int) =~= headers@);
    Ok(ForwardRequest { method, url, body: data, headers: pairs })
}

} // verus!
