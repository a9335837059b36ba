//! The subscription protocol: a backend server announces itself to the load
//! balancer with the line `subscribe <address> <weight>`.
use vstd::prelude::*;
use vstd::string::*;
use crate::text::{
    trailing_white_space_keeps_words, white_space_characters,
    chars_of, decimal, digit_char, is_white_space, leading_word_len, lemma_decimal_reads_back, next_word,
    no_white_space, parse_usize, parses_as_usize, same_text, unsigned_digits, usize_value, words,
};

verus! {

/// Why a subscription message was refused.
#[derive(Clone, Copy, Debug, PartialEq, Eq, Structural)]
pub enum SubscriptionError {
    /// Fewer than three words, or a first word other than `subscribe`.
    InvalidFormat,
    /// The third word is not a number that fits a `usize`.
    InvalidWeight,
}

/// A server's request to take part in load balancing.
#[derive(Debug)]
pub struct Subscription {
    /// Where the server takes requests.
    pub address: String,
    /// Its share of requests under weighted round robin.
    pub weight: usize,
}

/// The word that opens every subscription message.
pub open spec fn subscribe_word() -> Seq<char> {
    "subscribe"@
}

/// What a subscription message asks for: the address and weight it
/// announces, or the reason it is refused.
pub open spec fn subscription_parse(message: Seq<char>) -> Result<(Seq<char>, usize), SubscriptionError> {
    let parts = words(message);
    if parts.len() < 3 || parts[0] != subscribe_word() {
        Err(SubscriptionError::InvalidFormat)
    } else if !parses_as_usize(parts[2]) {
        Err(SubscriptionError::InvalidWeight)
    } else {
        Ok((parts[1], usize_value(parts[2]) as usize))
    }
}

/// The message with which a server subscribes: `subscribe <address> <weight>`.
pub open spec fn subscription_text(address: Seq<char>, weight: nat) -> Seq<char> {
    subscribe_word() + seq![' '] + address + seq![' '] + decimal(weight)
}

/// Reads a subscription message (as received, after lossy UTF-8 decoding).
pub fn parse_subscription(message: &str) -> (r: Result<Subscription, SubscriptionError>)
    ensures
        match r {
            Ok(s) => subscription_parse(message@) == Ok::<(Seq<char>, usize), SubscriptionError>(
                (s.address@, s.weight),
            ),
            Err(e) => subscription_parse(message@) == Err::<(Seq<char>, usize), SubscriptionError>(e),
        },
{
    let chars = chars_of(message);
    assert(chars@.skip(0) =~= chars@);
    let (b0, e0) = match next_word(&chars, 0) {
        Some(p) => p,
        None => {
            return Err(SubscriptionError::InvalidFormat);
        },
    };
    let (b1, e1) = match next_word(&chars, e0) {
        Some(p) => p,
        None => {
            return Err(SubscriptionError::InvalidFormat);
        },
    };
    let (b2, e2) = match next_word(&chars, e1) {
        Some(p) => p,
        None => {
            return Err(SubscriptionError::InvalidFormat);
        },
    };
    let ghost parts = words(message@);
    assert(parts.len() >= 3);
    assert(parts[0] == chars@.subrange(b0 as int, e0 as int));
    assert(parts[1] == chars@.subrange(b1 as int, e1 as int));
    assert(parts[2] == chars@.subrange(b2 as int, e2 as int));
    let first = String::from_str(message.substring_char(b0, e0));
    if !same_text(&first, "subscribe") {
        return Err(SubscriptionError::InvalidFormat);
    }
    let address = String::from_str(message.substring_char(b1, e1));
    match parse_usize(&chars, b2, e2) {
        Some(weight) => Ok(Subscription { address, weight }),
        None => Err(SubscriptionError::InvalidWeight),
    }
}

/// The digit `d` as a one-character string.
fn digit_text(d: usize) -> (s: &'static str)
    requires
        d < 10,
    ensures
        s@ == seq![digit_char(d as nat)],
{
    proof {
        reveal_strlit("0");
        reveal_strlit("1");
        reveal_strlit("2");
        reveal_strlit("3");
        reveal_strlit("4");
        reveal_strlit("5");
        reveal_strlit("6");
        reveal_strlit("7");
        reveal_strlit("8");
        reveal_strlit("9");
    }
    if d == 0 {
        "0"
    } else if d == 1 {
        "1"
    } else if d == 2 {
        "2"
    } else if d == 3 {
        "3"
    } else if d == 4 {
        "4"
    } else if d == 5 {
        "5"
    } else if d == 6 {
        "6"
    } else if d == 7 {
        "7"
    } else if d == 8 {
        "8"
    } else {
        "9"
    }
}

/// Appends the decimal digits of `n` to `text`.
pub fn append_decimal(text: &mut String, n: usize)
    ensures
        final(text)@ == old(text)@ + decimal(n as nat),
    decreases n,
{
    if n >= 10 {
        append_decimal(text, n / 10);
    }
    text.append(digit_text(n % 10));
    proof {
        if n >= 10 {
            assert(old(text)@ + decimal((n / 10) as nat) + seq![digit_char((n % 10) as nat)] =~= old(
                text,
            )@ + decimal(n as nat));
        } else {
            assert(decimal(n as nat) == seq![digit_char(n as nat)]);
        }
    }
}

/// The message with which a server at `address` and of weight `weight`
/// subscribes to the load balancer.
pub fn subscription_message(address: &str, weight: usize) -> (m: String)
    ensures
        m@ == subscription_text(address@, weight as nat),
{
    proof {
        reveal_strlit("subscribe ");
        reveal_strlit(" ");
        reveal_strlit("subscribe");
    }
    let mut m = String::from_str("subscribe ");
    m.append(address);
    m.append(" ");
    append_decimal(&mut m, weight);
    assert(m@ =~= subscription_text(address@, weight as nat));
    m
}

impl SubscriptionError {
    /// What the load balancer answers a refused subscription.
    pub fn reply(&self) -> (text: &'static str)
        ensures
            *self == SubscriptionError::InvalidFormat ==> text@ == "Error: Invalid subscription format"@,
            *self == SubscriptionError::InvalidWeight ==> text@ == "Error: Invalid weight format"@,
    {
        match self {
            SubscriptionError::InvalidFormat => "Error: Invalid subscription format",
            SubscriptionError::InvalidWeight => "Error: Invalid weight format",
        }
    }
}

/// What the load balancer answers an accepted subscription.
pub fn accepted_reply() -> (text: &'static str)
    ensures
        text@ == "Subscription successful"@,
{
    "Subscription successful"
}

/// A word followed by white space or by nothing is the first word.
proof fn lemma_leading_word(x: Seq<char>, rest: Seq<char>)
    requires
        x.len() > 0,
        no_white_space(x),
        rest.len() == 0 || is_white_space(rest[0]),
    ensures
        leading_word_len(x + rest) == x.len(),
    decreases x.len(),
{
    let s = x + rest;
    assert(s[0] == x[0]);
    assert(!is_white_space(x[0]));
    assert(leading_word_len(s) == 1 + leading_word_len(s.drop_first()));
    if x.len() == 1 {
        assert(s.drop_first() =~= rest);
        assert(leading_word_len(rest) == 0);
    } else {
        assert(s.drop_first() =~= x.drop_first() + rest);
        assert(no_white_space(x.drop_first())) by {
            assert forall|i: int| 0 <= i < x.drop_first().len() implies !is_white_space(
                #[trigger] x.drop_first()[i],
            ) by {
                assert(x.drop_first()[i] == x[i + 1]);
            }
        }
        lemma_leading_word(x.drop_first(), rest);
    }
}

/// The words of a word followed by white space (or nothing) and more text.
proof fn lemma_words_after_word(x: Seq<char>, rest: Seq<char>)
    requires
        x.len() > 0,
        no_white_space(x),
        rest.len() == 0 || is_white_space(rest[0]),
    ensures
        words(x + rest) == seq![x] + words(rest),
{
    let s = x + rest;
    lemma_leading_word(x, rest);
    assert(s[0] == x[0]);
    assert(s.take(x.len() as int) =~= x);
    assert(s.skip(x.len() as int) =~= rest);
}

/// The words of a text that opens with a white space are those of the rest.
proof fn lemma_words_after_space(c: char, rest: Seq<char>)
    requires
        is_white_space(c),
    ensures
        words(seq![c] + rest) == words(rest),
{
    assert((seq![c] + rest).drop_first() =~= rest);
}

/// A server's subscription message reads back as the address and weight
/// that it announces, whenever the address is one nonempty word.
pub proof fn subscription_round_trip(address: Seq<char>, weight: usize)
    requires
        address.len() > 0,
        no_white_space(address),
    ensures
        subscription_parse(subscription_text(address, weight as nat)) == Ok::<
            (Seq<char>, usize),
            SubscriptionError,
        >((address, weight)),
{
    reveal_strlit("subscribe");
    let sw = subscribe_word();
    let d = decimal(weight as nat);
    lemma_decimal_reads_back(weight as nat);
    let space = seq![' '];
    let tail2 = space + d;
    let tail1 = space + address + tail2;
    assert(subscription_text(address, weight as nat) =~= sw + tail1);
    assert(no_white_space(sw));
    lemma_words_after_word(sw, tail1);
    assert(tail1 =~= seq![' '] + (address + tail2));
    lemma_words_after_space(' ', address + tail2);
    lemma_words_after_word(address, tail2);
    lemma_words_after_space(' ', d);
    assert(d =~= d + Seq::<char>::empty());
    lemma_words_after_word(d, Seq::<char>::empty());
    assert(words(Seq::<char>::empty()) =~= Seq::<Seq<char>>::empty());
    let parts = words(subscription_text(address, weight as nat));
    assert(parts =~= seq![sw, address, d]);
    assert(unsigned_digits(d) == d);
}


/// A subscription line that ends in `\r\n`, as a terminal sends it, asks
/// for the same as the line without it; so does one that ends in a
/// newline alone.
pub proof fn line_endings_do_not_matter(message: Seq<char>)
    ensures
        subscription_parse(message + seq!['\r', '\n']) == subscription_parse(message),
        subscription_parse(message.push('\n')) == subscription_parse(message),
{
    white_space_characters();
    assert(message + seq!['\r', '\n'] =~= message.push('\r').push('\n'));
    trailing_white_space_keeps_words(message.push('\r'), '\n');
    trailing_white_space_keeps_words(message, '\r');
    trailing_white_space_keeps_words(message, '\n');
}
} // verus!
