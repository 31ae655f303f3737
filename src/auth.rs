use vstd::prelude::*;
use crate::store::Record;

verus! {

/// What a signed credential asserts about its bearer.
#[derive(Clone, Debug, PartialEq, Eq)]
pub struct Claims {
    /// Origins from which updates are allowed; carried, not enforced.
    pub allowed_origins: Vec<String>,
    /// Root domain the credential is for.
    pub domain: String,
    /// Subdomain of the root domain on which updates may be made.
    pub subdomain: String,
    /// Name the bearer must present.
    pub username: String,
}

/// Outcome of checking a submission against its credential.
#[derive(Clone, Copy, Debug, PartialEq, Eq, Structural)]
pub enum Verdict {
    Accepted,
    /// The signature held, but a claim names another user, domain or subdomain.
    ClaimMismatch,
    /// The token could not be verified or decoded.
    InvalidToken,
}

/// The claims allow `user` to update `subdomain` under `domain`.
pub open spec fn claims_allow(c: Claims, subdomain: Seq<char>, user: Seq<char>, domain: Seq<char>) -> bool {
    &&& c.username@ == user
    &&& c.domain@ == domain
    &&& c.subdomain@ == subdomain
}

pub open spec fn verdict_of(
    decoded: Option<Claims>,
    subdomain: Seq<char>,
    user: Seq<char>,
    domain: Seq<char>,
) -> Verdict {
    match decoded {
        None => Verdict::InvalidToken,
        Some(c) => if claims_allow(c, subdomain, user, domain) {
            Verdict::Accepted
        } else {
            Verdict::ClaimMismatch
        },
    }
}

/// Judges a submission: `decoded` holds the claims of its token when the
/// token's signature was valid under the shared secret, `None` otherwise.
pub fn check_claims(
    record: &Record,
    user: &String,
    domain: &String,
    decoded: &Option<Claims>,
) -> (r: Verdict)
    ensures
        r == verdict_of(*decoded, record.subdomain@, user@, domain@),
{
    match decoded {
        None => Verdict::InvalidToken,
        Some(c) => {
            if c.username == *user && c.domain == *domain && c.subdomain == record.subdomain {
                Verdict::Accepted
            } else {
                Verdict::ClaimMismatch
            }
        },
    }
}

/// Whether the submission is accepted: the token verified and its claims
/// name this user, domain and subdomain.
pub fn verify(record: &Record, user: &String, domain: &String, decoded: &Option<Claims>) -> (r: bool)
    ensures
        r == (decoded.is_some() && claims_allow(decoded.unwrap(), record.subdomain@, user@, domain@)),
{
    match check_claims(record, user, domain, decoded) {
        Verdict::Accepted => true,
        _ => false,
    }
}

/// Acceptance needs all four conditions: with the others held fixed, a
/// failed signature, or another user, domain or subdomain, rejects.
pub proof fn lemma_each_condition_decides(
    c: Claims,
    subdomain: Seq<char>,
    user: Seq<char>,
    domain: Seq<char>,
)
    requires
        claims_allow(c, subdomain, user, domain),
    ensures
        verdict_of(Some(c), subdomain, user, domain) == Verdict::Accepted,
        verdict_of(None, subdomain, user, domain) != Verdict::Accepted,
        forall|u: Seq<char>| u != user ==> verdict_of(Some(c), subdomain, u, domain) != Verdict::Accepted,
        forall|d: Seq<char>| d != domain ==> verdict_of(Some(c), subdomain, user, d) != Verdict::Accepted,
        forall|s: Seq<char>| s != subdomain ==> verdict_of(Some(c), s, user, domain) != Verdict::Accepted,
{
}

} // verus!
