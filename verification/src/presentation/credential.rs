//! What a holder brings to a presentation.

use vstd::prelude::*;
use crate::bytes::same_string;
use crate::g1::G1Point;
use crate::presentation::claim::ClaimData;
use crate::presentation::lookup::{first_named, lemma_skip};
use crate::ps::signature::Signature;

verus! {

/// A signed vector of claims.
pub struct SignatureCredential {
    /// The issuer's signature on the claims.
    pub signature: Signature,
    /// The claims.
    pub claims: Vec<ClaimData>,
    /// The witness that the credential is not revoked.
    pub revocation_handle: G1Point,
}

/// A witness of membership in an accumulated set.
pub struct MembershipCredential {
    /// The witness.
    pub witness: G1Point,
}

/// A credential of either kind.
pub enum PresentationCredential {
    /// A signed vector of claims.
    Signature(SignatureCredential),
    /// A witness of membership.
    Membership(MembershipCredential),
}

/// A credential under the name of the statement that it is for.
pub struct NamedCredential {
    /// The name.
    pub id: String,
    /// The credential.
    pub credential: PresentationCredential,
}

/// The names of the credentials.
pub open spec fn credential_names(credentials: Seq<NamedCredential>) -> Seq<Seq<char>> {
    credentials.map_values(|c: NamedCredential| c.id@)
}

/// The place of the first credential of the given name, if there is one.
pub fn find_credential(credentials: &Vec<NamedCredential>, id: &String) -> (r: Option<usize>)
    ensures
        r matches Some(i) ==> i < credentials.len() && first_named(
            credential_names(credentials@),
            id@,
        ) == Some(i as int),
        r is None ==> first_named(credential_names(credentials@), id@) is None,
{
    let ghost names = credential_names(credentials@);
    let mut i: usize = 0;
    while i < credentials.len()
        invariant
            i <= credentials.len(),
            names == credential_names(credentials@),
            forall|k: int| 0 <= k < i ==> names[k] != id@,
        decreases credentials.len() - i,
    {
        if same_string(&credentials[i].id, id) {
            proof {
                lemma_skip(names, id@, i as int);
            }
            return Some(i);
        }
        i += 1;
    }
    proof {
        lemma_skip(names, id@, i as int);
    }
    None
}

} // verus!
