# wh_server

A webhook server: users create webhooks that forward HTTP requests to a URL
of their choice, protected by a password that is stored hashed and salted
(Argon2).

## Layout

- `src/` — the verified library (Verus):
  - `text.rs`: lines and `", "`-separated fields of text, as specifications
    and as code proved against them;
  - `route.rs`: routes and the routes file (`key, url, hash, salt, username`
    per line), reading it and writing a route line, with the proof that a
    written route reads back;
  - `keys.rs`: webhook keys (lowercase hexadecimal), the next key from the
    last line of the routes file;
  - `passwords.rs`: Argon2 password hashing;
  - `hooks.rs`: listing, checking, creating and deleting webhooks;
  - `forward.rs`: the request to forward for a request on a webhook.
- `app/main.rs` — the Rocket server: HTTP routes, the routes file on disk,
  templates and forwarding with reqwest.
- `tests/` — tests of the library.
