//! What the backend servers and the test clients decide and say: a
//! server's weight, its answer to a request, and a client's request.
use vstd::prelude::*;
use vstd::string::*;
use rand::Rng;
use crate::subscription::append_decimal;
use crate::text::{chars_of, decimal, parse_usize, parses_as_usize, usize_value};

verus! {

/// A number drawn at random by `rand`: `rand::thread_rng().gen_range(low..=high)`.
/// `gen_range` on a non-empty inclusive range returns a value inside it, so
/// the result lies between `low` and `high`; which value comes out is left
/// open. An empty range would make `gen_range` panic, so `low <= high` is
/// required.
#[verifier::external_body]
fn random_in(low: usize, high: usize) -> (w: usize)
    requires
        low <= high,
    ensures
        low <= w <= high,
{
    rand::thread_rng().gen_range(low..=high)
}

/// The smallest weight a server draws where none is given.
pub const MIN_RANDOM_WEIGHT: usize = 1;

/// The largest weight a server draws where none is given.
pub const MAX_RANDOM_WEIGHT: usize = 10;

/// A server's weight: the one given on its command line where that reads
/// as a `usize`, otherwise one drawn at random between 1 and 10. The flag
/// tells whether a given weight was unreadable and replaced.
pub fn server_weight(given: Option<&str>) -> (r: (usize, bool))
    ensures
        match given {
            Some(text) => if parses_as_usize(text@) {
                r == (usize_value(text@) as usize, false)
            } else {
                r.1 && 1 <= r.0 <= 10
            },
            None => !r.1 && 1 <= r.0 <= 10,
        },
{
    match given {
        Some(text) => {
            let chars = chars_of(text);
            assert(chars@.subrange(0, chars@.len() as int) =~= text@);
            match parse_usize(&chars, 0, chars.len()) {
                Some(w) => (w, false),
                None => (random_in(MIN_RANDOM_WEIGHT, MAX_RANDOM_WEIGHT), true),
            }
        },
        None => (random_in(MIN_RANDOM_WEIGHT, MAX_RANDOM_WEIGHT), false),
    }
}

/// What a backend server at `address` answers every request with.
pub fn server_reply(address: &str) -> (text: String)
    ensures
        text@ == "Hello from server "@ + address@ + "!"@,
{
    let mut text = String::from_str("Hello from server ");
    text.append(address);
    text.append("!");
    text
}

/// The request that test client `client` sends as its `request`-th.
pub fn client_request(client: usize, request: usize) -> (text: String)
    ensures
        text@ == "Hello from client "@ + decimal(client as nat) + " (request "@ + decimal(
            request as nat,
        ) + ")!"@,
{
    let mut text = String::from_str("Hello from client ");
    append_decimal(&mut text, client);
    text.append(" (request ");
    append_decimal(&mut text, request);
    text.append(")!");
    text
}

} // verus!
