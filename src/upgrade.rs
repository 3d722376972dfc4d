//! Turns an inbound plaintext request target into the target on the secure
//! origin.

use vstd::prelude::*;
use vstd::slice::slice_to_vec;
use hyper::http::uri::Authority;
use crate::rewriter::{BYTE_COLON, BYTE_H, BYTE_P, BYTE_S, BYTE_SLASH, BYTE_T};

verus! {

/// Whether the bytes parse as a URI authority (`host[:port]`).
pub uninterp spec fn is_authority(host: Seq<u8>) -> bool;

/// Relies on `Authority::try_from(&[u8])`: `Ok` exactly when the bytes
/// parse as an authority, which depends on the bytes alone.
#[verifier::external_body]
fn parse_authority(host: &[u8]) -> (r: bool)
    ensures
        r == is_authority(host@),
{
    Authority::try_from(host).is_ok()
}

/// A request target taken apart: each component is absent or holds its
/// bytes as they stand in the URI.
pub struct RequestTarget {
    pub scheme: Option<Vec<u8>>,
    pub authority: Option<Vec<u8>>,
    pub path_and_query: Option<Vec<u8>>,
}

/// The bytes of a component, if present.
pub open spec fn component(c: Option<Vec<u8>>) -> Option<Seq<u8>> {
    match c {
        Some(v) => Some(v@),
        None => None,
    }
}

/// The bytes of a component, or nothing where it is absent.
pub open spec fn component_bytes(c: Option<Vec<u8>>) -> Seq<u8> {
    match c {
        Some(v) => v@,
        None => Seq::empty(),
    }
}

/// The scheme name `https`.
pub open spec fn https_scheme() -> Seq<u8> {
    seq![BYTE_H, BYTE_T, BYTE_T, BYTE_P, BYTE_S]
}

/// The separator `://` after a scheme.
pub open spec fn scheme_separator() -> Seq<u8> {
    seq![BYTE_COLON, BYTE_SLASH, BYTE_SLASH]
}

impl RequestTarget {
    /// The target written out: `scheme://` where a scheme is present, then
    /// the authority and the path and query.
    pub open spec fn rendered(&self) -> Seq<u8> {
        (if self.scheme is Some {
            component_bytes(self.scheme) + scheme_separator()
        } else {
            Seq::empty()
        }) + component_bytes(self.authority) + component_bytes(self.path_and_query)
    }

    /// The target written out as the bytes of a URI.
    pub fn to_uri_bytes(&self) -> (r: Vec<u8>)
        ensures
            r@ == self.rendered(),
    {
        let mut out: Vec<u8> = Vec::new();
        match &self.scheme {
            Some(s) => {
                let mut i: usize = 0;
                while i < s.len()
                    invariant
                        i <= s@.len(),
                        out@ == s@.take(i as int),
                    decreases s@.len() - i,
                {
                    out.push(s[i]);
                    proof {
                        assert(s@.take(i + 1) =~= s@.take(i as int).push(s@[i as int]));
                    }
                    i += 1;
                }
                proof {
                    assert(s@.take(s@.len() as int) =~= s@);
                }
                out.push(BYTE_COLON);
                out.push(BYTE_SLASH);
                out.push(BYTE_SLASH);
                proof {
                    assert(out@ =~= s@ + scheme_separator());
                }
            },
            None => {
                proof {
                    assert(out@ =~= Seq::<u8>::empty());
                }
            },
        }
        let ghost lead = out@;
        append_component(&mut out, &self.authority);
        append_component(&mut out, &self.path_and_query);
        proof {
            assert(out@ =~= lead + component_bytes(self.authority) + component_bytes(self.path_and_query));
        }
        out
    }
}

fn append_component(out: &mut Vec<u8>, c: &Option<Vec<u8>>)
    ensures
        final(out)@ == old(out)@ + component_bytes(*c),
{
    match c {
        Some(v) => {
            let mut i: usize = 0;
            while i < v.len()
                invariant
                    i <= v@.len(),
                    out@ == old(out)@ + v@.take(i as int),
                decreases v@.len() - i,
            {
                out.push(v[i]);
                proof {
                    assert(old(out)@ + v@.take(i + 1) =~= old(out)@ + v@.take(i as int) + seq![v@[i as int]]);
                }
                i += 1;
            }
            proof {
                assert(v@.take(v@.len() as int) =~= v@);
            }
        },
        None => {
            proof {
                assert(out@ + Seq::<u8>::empty() =~= out@);
            }
        },
    }
}

fn https_scheme_bytes() -> (r: Vec<u8>)
    ensures
        r@ == https_scheme(),
{
    let r = vec![BYTE_H, BYTE_T, BYTE_T, BYTE_P, BYTE_S];
    proof {
        assert(r@ =~= https_scheme());
    }
    r
}

/// Why a request could not be sent on to the origin.
#[derive(Debug, PartialEq, Eq, Clone, Copy, Structural)]
pub enum UpgradeError {
    /// The request has no `Host` header.
    MissingHost,
    /// The `Host` header is not a URI authority.
    InvalidAuthority,
    /// The request target has no path, so it cannot carry a scheme and an
    /// authority.
    InvalidTarget,
}

/// The secure target for a request target: the scheme is `https`, the
/// authority is the `Host` header's value `host`, and the path and query
/// are kept. The authority of the inbound target is never used.
pub fn httpsify(target: RequestTarget, host: Option<&[u8]>) -> (r: Result<RequestTarget, UpgradeError>)
    ensures
        host is None ==> r == Err::<RequestTarget, UpgradeError>(UpgradeError::MissingHost),
        host is Some && !is_authority(host->0@) ==> r == Err::<RequestTarget, UpgradeError>(
            UpgradeError::InvalidAuthority,
        ),
        host is Some && is_authority(host->0@) && target.path_and_query is None ==> r == Err::<
            RequestTarget,
            UpgradeError,
        >(UpgradeError::InvalidTarget),
        host is Some && is_authority(host->0@) && target.path_and_query is Some ==> {
            &&& r is Ok
            &&& component(r->Ok_0.scheme) == Some(https_scheme())
            &&& component(r->Ok_0.authority) == Some(host->0@)
            &&& component(r->Ok_0.path_and_query) == component(target.path_and_query)
        },
{
    match host {
        None => Err(UpgradeError::MissingHost),
        Some(h) => {
            if !parse_authority(h) {
                return Err(UpgradeError::InvalidAuthority);
            }
            match target.path_and_query {
                None => Err(UpgradeError::InvalidTarget),
                Some(pq) => {
                    let authority = slice_to_vec(h);
                    Ok(RequestTarget {
                        scheme: Some(https_scheme_bytes()),
                        authority: Some(authority),
                        path_and_query: Some(pq),
                    })
                },
            }
        },
    }
}

} // verus!
