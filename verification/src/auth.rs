//! Bearer-token authorization for the loopback API.

use vstd::prelude::*;
use vstd::string::StringSliceAdditionalSpecFns;

use crate::reply::is_text_reply;
use crate::reply::Body;
use crate::reply::Reply;
use crate::reply::Status;

verus! {

/// Byte `i` of `s`, with zero past its end.
pub open spec fn padded_byte(s: Seq<u8>, i: int) -> u8 {
    if 0 <= i < s.len() {
        s[i]
    } else {
        0u8
    }
}

proof fn lemma_or_xor_zero(d: u8, x: u8, y: u8)
    ensures
        ((d | (x ^ y)) == 0) <==> (d == 0 && x == y),
{
    assert(((d | (x ^ y)) == 0) <==> (d == 0 && x == y)) by (bit_vector);
}

/// Byte-string equality that takes the same steps whatever the contents,
/// so a caller cannot probe the token by timing: every position up to the
/// longer length is visited, and no early exit is taken.
pub fn constant_time_eq(a: &[u8], b: &[u8]) -> (res: bool)
    ensures
        res == (a@ == b@),
{
    let la = a.len();
    let lb = b.len();
    let mut diff: u8 = if la == lb {
        0
    } else {
        1
    };
    let n: usize = if la >= lb {
        la
    } else {
        lb
    };
    let mut i: usize = 0;
    while i < n
        invariant
            la == a@.len(),
            lb == b@.len(),
            n == (if la >= lb { la } else { lb }),
            i <= n,
            (diff == 0) <==> (la == lb && forall|j: int|
                0 <= j < i ==> #[trigger] padded_byte(a@, j) == padded_byte(b@, j)),
        decreases n - i,
    {
        let x: u8 = if i < la {
            a[i]
        } else {
            0
        };
        let y: u8 = if i < lb {
            b[i]
        } else {
            0
        };
        proof {
            lemma_or_xor_zero(diff, x, y);
        }
        let ghost old_diff = diff;
        diff = diff | (x ^ y);
        assert(x == padded_byte(a@, i as int) && y == padded_byte(b@, i as int));
        assert((diff == 0) <==> (old_diff == 0 && x == y));
        i = i + 1;
    }
    proof {
        if diff == 0 {
            assert forall|j: int| 0 <= j < la implies a@[j] == b@[j] by {
                assert(padded_byte(a@, j) == padded_byte(b@, j));
            }
            assert(a@ =~= b@);
        }
    }
    diff == 0
}

/// A byte that may stand in header text: visible ASCII or a tab.
pub open spec fn is_visible_ascii(b: u8) -> bool {
    (32 <= b && b < 127) || b == 9
}

/// Header bytes that read as text.
pub open spec fn is_header_text(h: Seq<u8>) -> bool {
    forall|i: int| 0 <= i < h.len() ==> #[trigger] is_visible_ascii(h[i])
}

/// The bytes of `Bearer `.
pub open spec fn bearer_scheme() -> Seq<u8> {
    seq![66u8, 101u8, 97u8, 114u8, 101u8, 114u8, 32u8]
}

pub open spec fn header_view(header: Option<&[u8]>) -> Option<Seq<u8>> {
    match header {
        Some(h) => Some(h@),
        None => None,
    }
}

/// The token a request presents: what follows `Bearer ` in an
/// `Authorization` header that reads as text, and nothing otherwise.
pub open spec fn presented_token(header: Option<Seq<u8>>) -> Seq<u8> {
    match header {
        Some(h) => if is_header_text(h) && h.len() >= 7 && h.take(7) == bearer_scheme() {
            h.skip(7)
        } else {
            Seq::<u8>::empty()
        },
        None => Seq::<u8>::empty(),
    }
}

/// A request is let through when the token it presents is the minted one.
pub open spec fn is_authorized(header: Option<Seq<u8>>, token: Seq<u8>) -> bool {
    presented_token(header) == token
}

/// Whether the header bytes read as text (the check behind `to_str` on a
/// header value).
pub fn is_header_text_exec(h: &[u8]) -> (r: bool)
    ensures
        r == is_header_text(h@),
{
    let mut i: usize = 0;
    while i < h.len()
        invariant
            i <= h@.len(),
            forall|j: int| 0 <= j < i ==> #[trigger] is_visible_ascii(h@[j]),
        decreases h@.len() - i,
    {
        let b = h[i];
        if !((b >= 32 && b < 127) || b == 9) {
            assert(!is_visible_ascii(h@[i as int]));
            return false;
        }
        i = i + 1;
    }
    true
}

/// The token that an `Authorization` header presents.
pub fn presented_token_of(header: Option<&[u8]>) -> (t: &[u8])
    ensures
        t@ == presented_token(header_view(header)),
{
    match header {
        Some(h) => {
            if is_header_text_exec(h) && h.len() >= 7 && h[0] == 66 && h[1] == 101 && h[2] == 97
                && h[3] == 114 && h[4] == 101 && h[5] == 114 && h[6] == 32 {
                assert(h@.take(7) =~= bearer_scheme());
                let t = vstd::slice::slice_subrange(h, 7, h.len());
                assert(t@ =~= h@.skip(7));
                t
            } else {
                proof {
                    if h@.len() >= 7 && h@.take(7) == bearer_scheme() {
                        assert(h@.take(7)[0] == 66u8);
                        assert(h@.take(7)[1] == 101u8);
                        assert(h@.take(7)[2] == 97u8);
                        assert(h@.take(7)[3] == 114u8);
                        assert(h@.take(7)[4] == 101u8);
                        assert(h@.take(7)[5] == 114u8);
                        assert(h@.take(7)[6] == 32u8);
                    }
                }
                let e: &[u8] = &[];
                assert(e@ =~= Seq::<u8>::empty());
                e
            }
        },
        None => {
            let e: &[u8] = &[];
            assert(e@ =~= Seq::<u8>::empty());
            e
        },
    }
}

/// The answer to a request without the right token.
pub open spec fn unauthorized_text() -> Seq<char> {
    "invalid or missing token"@
}

/// Bearer check of a request's `Authorization` header against the minted
/// token. Returns `Err` with a ready-made 401 response.
pub fn authorize(header: Option<&[u8]>, token: &str) -> (res: Result<(), Reply>)
    ensures
        res is Ok <==> is_authorized(header_view(header), token.spec_bytes()),
        res matches Err(r) ==> is_text_reply(r, Status::Unauthorized, unauthorized_text()),
{
    let presented = presented_token_of(header);
    if constant_time_eq(presented, token.as_bytes()) {
        Ok(())
    } else {
        Err(
            Reply {
                status: Status::Unauthorized,
                body: Body::Text(String::from_str("invalid or missing token")),
            },
        )
    }
}

// ---------------------------------------------------------------------
// Laws
// ---------------------------------------------------------------------

/// A request that carries `Bearer <token>` is let through, whenever the
/// token reads as header text.
pub proof fn lemma_bearer_of_token_is_authorized(token: Seq<u8>)
    requires
        is_header_text(token),
    ensures
        is_authorized(Some(bearer_scheme() + token), token),
{
    let h = bearer_scheme() + token;
    assert(h.take(7) =~= bearer_scheme());
    assert(h.skip(7) =~= token);
    assert forall|i: int| 0 <= i < h.len() implies #[trigger] is_visible_ascii(h[i]) by {
        if i >= 7 {
            assert(h[i] == token[i - 7]);
        }
    }
}

/// Against a non-empty token, no `Authorization` header but
/// `Bearer <token>` itself is let through, and a request without the header
/// is refused.
pub proof fn lemma_only_bearer_of_token_is_authorized(header: Option<Seq<u8>>, token: Seq<u8>)
    requires
        token.len() > 0,
    ensures
        is_authorized(header, token) ==> header == Some(bearer_scheme() + token),
        !is_authorized(None, token),
{
    if is_authorized(header, token) {
        let h = header->Some_0;
        assert(h =~= bearer_scheme() + token) by {
            assert(h =~= h.take(7) + h.skip(7));
        }
    }
}

} // verus!
