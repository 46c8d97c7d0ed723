//! The bearer token minted when a backend starts.

use rand::Rng;
use rand::SeedableRng;
use vstd::prelude::*;
use vstd::string::StringSliceAdditionalSpecFns;

use crate::auth::bearer_scheme;
use crate::auth::is_authorized;
use crate::auth::is_header_text;
use crate::auth::lemma_bearer_of_token_is_authorized;
use crate::auth::lemma_only_bearer_of_token_is_authorized;
use crate::text::push_char;

verus! {

/// Length of a minted token.
pub const TOKEN_LEN: usize = 32;

/// Number of characters a token is drawn from: `a`..=`z` then `0`..=`9`.
pub const TOKEN_ALPHABET_LEN: usize = 36;

#[verifier::external_type_specification]
#[verifier::external_body]
pub struct ExStdRng(rand::rngs::StdRng);

/// rand's `SeedableRng::try_from_os_rng` for `StdRng`: a generator seeded
/// from the operating system, or `None` when the system generator cannot be
/// read. `StdRng` never reseeds, so drawing from it cannot fail later.
/// Whether the system generator answers is not stated.
#[verifier::external_body]
fn os_seeded_rng() -> Option<rand::rngs::StdRng> {
    rand::rngs::StdRng::try_from_os_rng().ok()
}

/// rand's `Rng::random_range` over `0..n` on a `StdRng`: a draw below `n`.
/// Which one comes up is chance; only the range is stated.
#[verifier::external_body]
fn random_below(rng: &mut rand::rngs::StdRng, n: usize) -> (r: usize)
    requires
        n > 0,
    ensures
        r < n,
{
    rng.random_range(0..n)
}

/// The `i`-th character of the token alphabet.
pub open spec fn token_char(i: int) -> char {
    (if i < 26 {
        (97 + i) as u8
    } else {
        (22 + i) as u8
    }) as char
}

/// A character a token may hold: a lowercase ASCII letter or a digit.
pub open spec fn is_token_char(c: char) -> bool {
    ('a' <= c <= 'z') || ('0' <= c <= '9')
}

/// The `i`-th character of the token alphabet.
pub fn alphabet_char(i: usize) -> (c: char)
    requires
        i < TOKEN_ALPHABET_LEN,
    ensures
        c == token_char(i as int),
        is_token_char(c),
{
    let b: u8 = if i < 26 {
        97 + i as u8
    } else {
        22 + i as u8
    };
    b as char
}

/// The token spelled by a run of draws from the alphabet.
pub fn token_from_draws(draws: &[usize]) -> (t: String)
    requires
        forall|k: int| 0 <= k < draws@.len() ==> #[trigger] draws@[k] < TOKEN_ALPHABET_LEN,
    ensures
        t@.len() == draws@.len(),
        forall|k: int| 0 <= k < draws@.len() ==> #[trigger] t@[k] == token_char(draws@[k] as int),
{
    let mut t = String::new();
    let mut i: usize = 0;
    while i < draws.len()
        invariant
            i <= draws@.len(),
            forall|k: int| 0 <= k < draws@.len() ==> #[trigger] draws@[k] < TOKEN_ALPHABET_LEN,
            t@.len() == i,
            forall|k: int| 0 <= k < i ==> #[trigger] t@[k] == token_char(draws@[k] as int),
        decreases draws@.len() - i,
    {
        let c = alphabet_char(draws[i]);
        push_char(&mut t, c);
        i = i + 1;
    }
    t
}

/// Mints a fresh token: `TOKEN_LEN` characters drawn at random from
/// lowercase ASCII letters and digits. `None` when the operating system's
/// random generator cannot be read.
pub fn new_token() -> (r: Option<String>)
    ensures
        r matches Some(t) ==> t@.len() == TOKEN_LEN && forall|k: int|
            0 <= k < t@.len() ==> is_token_char(#[trigger] t@[k]),
{
    let mut rng = match os_seeded_rng() {
        Some(rng) => rng,
        None => return None,
    };
    let mut draws: Vec<usize> = Vec::new();
    let mut i: usize = 0;
    while i < TOKEN_LEN
        invariant
            i <= TOKEN_LEN,
            draws@.len() == i,
            forall|k: int| 0 <= k < draws@.len() ==> #[trigger] draws@[k] < TOKEN_ALPHABET_LEN,
        decreases TOKEN_LEN - i,
    {
        let d = random_below(&mut rng, TOKEN_ALPHABET_LEN);
        draws.push(d);
        i = i + 1;
    }
    let t = token_from_draws(&draws);
    assert forall|k: int| 0 <= k < t@.len() implies is_token_char(#[trigger] t@[k]) by {
        assert(t@[k] == token_char(draws@[k] as int));
    }
    Some(t)
}

/// A minted token opens the API when presented as `Bearer <token>`, and no
/// other `Authorization` header (nor its absence) does.
pub proof fn lemma_minted_token_gates(t: &str, header: Option<Seq<u8>>)
    requires
        t@.len() > 0,
        forall|k: int| 0 <= k < t@.len() ==> is_token_char(#[trigger] t@[k]),
    ensures
        is_authorized(Some(bearer_scheme() + t.spec_bytes()), t.spec_bytes()),
        is_authorized(header, t.spec_bytes()) <==> header == Some(bearer_scheme() + t.spec_bytes()),
        !is_authorized(None, t.spec_bytes()),
{
    broadcast use vstd::string::is_ascii_spec_bytes;

    assert(vstd::string::is_ascii(t)) by {
        assert forall|k: int| 0 <= k < t@.len() implies '\0' <= #[trigger] t@[k] <= '\u{7f}' by {
            assert(is_token_char(t@[k]));
        }
    }
    let b = t.spec_bytes();
    assert(b =~= Seq::new(t@.len(), |i| t@[i] as u8));
    assert forall|i: int| 0 <= i < b.len() implies #[trigger] crate::auth::is_visible_ascii(b[i]) by {
        assert(is_token_char(t@[i]));
        assert(b[i] == t@[i] as u8);
    }
    assert(is_header_text(b));
    lemma_bearer_of_token_is_authorized(b);
    lemma_only_bearer_of_token_is_authorized(header, b);
}


/// The draws spell every token character and each one only once: the
/// alphabet is `a`..=`z` then `0`..=`9`, without repeats, so a token holds
/// one of 36 characters at each position.
pub proof fn lemma_alphabet_is_the_token_characters(i: int, j: int)
    requires
        0 <= i < 36,
        0 <= j < 36,
    ensures
        is_token_char(token_char(i)),
        i != j ==> token_char(i) != token_char(j),
        i < 26 ==> (token_char(i) as u32) == 97 + i,
        i >= 26 ==> (token_char(i) as u32) == 22 + i,
{
    assert(((if i < 26 { (97 + i) as u8 } else { (22 + i) as u8 }) as char as u32) == (if i < 26 {
        97 + i
    } else {
        22 + i
    }));
    assert(((if j < 26 { (97 + j) as u8 } else { (22 + j) as u8 }) as char as u32) == (if j < 26 {
        97 + j
    } else {
        22 + j
    }));
}

} // verus!
