//! Domains: how a requested domain is normalised and matched against the
//! domain the proxy serves.

use vstd::prelude::*;
use vstd::string::StrSliceExecFns;

verus! {

/// Where a connection goes once its handshake has been read.
#[derive(Clone, Copy, Debug, PartialEq, Eq, Structural)]
pub enum Route {
    /// The client asked for the served domain: relay it to the backend.
    Relay,
    /// The client asked for some other domain: close the connection.
    Drop,
}

/// `domain` without the dots at its end. Some clients append one.
pub open spec fn strip_trailing_dots(domain: Seq<char>) -> Seq<char>
    decreases domain.len(),
{
    if domain.len() > 0 && domain.last() == '.' {
        strip_trailing_dots(domain.drop_last())
    } else {
        domain
    }
}

/// The route for a client that asks for `requested` at a proxy that serves
/// `target`: a relay exactly when the two are the same characters once the
/// trailing dots of `requested` are gone. Case matters.
pub open spec fn route_of(target: Seq<char>, requested: Seq<char>) -> Route {
    if strip_trailing_dots(requested) == target {
        Route::Relay
    } else {
        Route::Drop
    }
}

/// What stripping leaves is a prefix of the domain that does not end in a
/// dot, and all it took away were dots.
pub proof fn lemma_strip_shape(domain: Seq<char>)
    ensures
        strip_trailing_dots(domain).len() <= domain.len(),
        strip_trailing_dots(domain) == domain.take(strip_trailing_dots(domain).len() as int),
        strip_trailing_dots(domain).len() > 0 ==> strip_trailing_dots(domain).last() != '.',
        forall|i: int|
            strip_trailing_dots(domain).len() <= i < domain.len() ==> #[trigger] domain[i] == '.',
    decreases domain.len(),
{
    if domain.len() > 0 && domain.last() == '.' {
        let shorter = domain.drop_last();
        lemma_strip_shape(shorter);
        let kept = strip_trailing_dots(shorter).len() as int;
        assert(shorter.take(kept) == domain.take(kept));
        assert forall|i: int| kept <= i < domain.len() implies #[trigger] domain[i] == '.' by {
            if i < shorter.len() {
                assert(shorter[i] == domain[i]);
            }
        }
    } else {
        assert(domain.take(domain.len() as int) == domain);
    }
}

/// Normalising is idempotent: a normalised domain is left as it is.
pub proof fn lemma_strip_idempotent(domain: Seq<char>)
    ensures
        strip_trailing_dots(strip_trailing_dots(domain)) == strip_trailing_dots(domain),
{
    lemma_strip_shape(domain);
}

/// A domain that does not end in a dot is already normalised.
pub proof fn lemma_strip_fixed_point(domain: Seq<char>)
    requires
        domain.len() == 0 || domain.last() != '.',
    ensures
        strip_trailing_dots(domain) == domain,
{
}

/// Returns `domain` without its trailing dots.
pub fn normalize_domain(domain: &str) -> (out: String)
    ensures
        out@ == strip_trailing_dots(domain@),
{
    let mut end: usize = domain.unicode_len();
    assert(domain@.take(end as int) == domain@);
    while end > 0 && domain.get_char(end - 1) == '.'
        invariant
            end <= domain@.len(),
            strip_trailing_dots(domain@) == strip_trailing_dots(domain@.take(end as int)),
        decreases end,
    {
        assert(domain@.take(end as int).drop_last() == domain@.take(end - 1));
        end = end - 1;
    }
    domain.substring_char(0, end).to_owned()
}

/// Decides where a connection goes: to the backend when the requested domain,
/// normalised, is exactly the served one, and nowhere otherwise.
pub fn route(target_domain: &str, requested: &str) -> (out: Route)
    ensures
        out == route_of(target_domain@, requested@),
{
    let wanted = normalize_domain(requested);
    let served = target_domain.to_owned();
    if wanted == served {
        Route::Relay
    } else {
        Route::Drop
    }
}

} // verus!
