//! The decision logic of the authorization layer: extracting a bearer token
//! from an `Authorization` header, selecting the signing algorithm, checking
//! decoded claims, and the administrator-role test.

use vstd::prelude::*;
use vstd::string::StringExecFns;

use crate::models::Claims;
use crate::text::{
    chars_eq_ignore_ascii_case, chars_of, eq_ignore_ascii_case, is_whitespace_char,
    is_whitespace_char_exec, lemma_trim_end_take, lemma_trim_start_skip, string_from_chars,
    trim_end, trim_start,
};

verus! {

/// Why a presented token is rejected before or after decoding. A failure of
/// the cryptographic decoding itself is reported by the transport layer.
#[derive(Debug)]
pub enum JwtVerificationError {
    /// The configured algorithm name is not one of the supported HMAC names.
    UnsupportedAlgorithm(String),
    /// The decoded claims are not an access token.
    InvalidTokenType,
    /// The decoded claims lack a subject, a role, or a positive user id.
    MissingClaims,
}

/// The HMAC signing algorithms the service accepts.
#[derive(Debug)]
pub enum JwtAlgorithm {
    HS256,
    HS384,
    HS512,
}

/// Maps a configured algorithm name to the algorithm, accepting exactly the
/// three supported names.
pub fn algorithm_from_name(name: &str) -> (r: Option<JwtAlgorithm>)
    ensures
        name@ == "HS256"@ ==> r == Some(JwtAlgorithm::HS256),
        name@ == "HS384"@ ==> r == Some(JwtAlgorithm::HS384),
        name@ == "HS512"@ ==> r == Some(JwtAlgorithm::HS512),
        (name@ != "HS256"@ && name@ != "HS384"@ && name@ != "HS512"@) ==> r is None,
{
    proof {
        reveal_strlit("HS256");
        reveal_strlit("HS384");
        reveal_strlit("HS512");
        assert("HS256"@[2] == '2');
        assert("HS384"@[2] == '3');
        assert("HS512"@[2] == '5');
        assert("HS256"@ != "HS384"@ && "HS256"@ != "HS512"@ && "HS384"@ != "HS512"@);
    }
    let owned = name.to_owned();
    if owned == String::from_str("HS256") {
        Some(JwtAlgorithm::HS256)
    } else if owned == String::from_str("HS384") {
        Some(JwtAlgorithm::HS384)
    } else if owned == String::from_str("HS512") {
        Some(JwtAlgorithm::HS512)
    } else {
        None
    }
}

/// Whether decoded claims form a usable access token: correct token type,
/// non-empty subject and role, positive user id.
pub open spec fn claims_usable(claims: Claims) -> bool {
    &&& claims.token_type@ == "access"@
    &&& claims.sub@.len() > 0
    &&& claims.rol@.len() > 0
    &&& claims.user_id > 0
}

/// The checks a decoded token's claims must pass: it succeeds exactly on
/// usable access-token claims; a wrong token type is reported before any
/// missing claim.
pub fn validate_claims(claims: &Claims) -> (r: Result<(), JwtVerificationError>)
    ensures
        r is Ok <==> claims_usable(*claims),
        r matches Err(e) ==> if claims.token_type@ != "access"@ {
            e is InvalidTokenType
        } else {
            e is MissingClaims
        },
{
    if !(claims.token_type == String::from_str("access")) {
        return Err(JwtVerificationError::InvalidTokenType);
    }
    if claims.sub.as_str().is_empty() || claims.rol.as_str().is_empty() || claims.user_id <= 0 {
        return Err(JwtVerificationError::MissingClaims);
    }
    Ok(())
}

/// Whether a role string names the administrator role, ignoring ASCII case.
pub fn is_administrator_role(rol: &str) -> (r: bool)
    ensures
        r == eq_ignore_ascii_case(rol@, "administrator"@),
{
    let cs = chars_of(rol);
    let admin = chars_of("administrator");
    chars_eq_ignore_ascii_case(&cs, &admin)
}

/// What bearer-token extraction yields on a header value: the part before the
/// first space must spell `Bearer` (any ASCII case); the rest, trimmed of
/// white space, is the token, which must be non-empty.
pub open spec fn spec_extract_bearer_token(s: Seq<char>) -> Option<Seq<char>> {
    match s.index_of_first(' ') {
        Some(i) => {
            let scheme = s.take(i);
            let token = trim_end(trim_start(s.skip(i + 1)));
            if eq_ignore_ascii_case(scheme, "Bearer"@) && token.len() > 0 {
                Some(token)
            } else {
                None
            }
        },
        None => None,
    }
}

/// Extracts the token from an `Authorization` header value: the scheme before
/// the first space must be `Bearer` in any ASCII case, and the rest, trimmed
/// of white space, must be non-empty.
#[verifier::loop_isolation(false)]
pub fn extract_bearer_token(header_value: &str) -> (r: Option<String>)
    ensures
        r is Some <==> spec_extract_bearer_token(header_value@) is Some,
        r matches Some(t) ==> Some(t@) == spec_extract_bearer_token(header_value@),
{
    let cs = chars_of(header_value);
    proof {
        header_value@.index_of_first_ensures(' ');
    }
    // Find the first space.
    let mut sp: usize = 0;
    let mut found = false;
    while !found && sp < cs.len()
        invariant
            sp <= cs@.len(),
            forall|k: int| 0 <= k < sp ==> cs@[k] != ' ',
            found ==> sp < cs@.len() && cs@[sp as int] == ' ',
        decreases cs@.len() - sp, if found {
            0int
        } else {
            1int
        },
    {
        if cs[sp] == ' ' {
            found = true;
        } else {
            sp += 1;
        }
    }
    if !found {
        proof {
            assert(!header_value@.contains(' '));
        }
        return None;
    }
    let ghost i = header_value@.index_of_first(' ')->0;
    proof {
        assert(header_value@.contains(' ')) by {
            assert(header_value@[sp as int] == ' ');
        }
        assert(i == sp as int);
    }
    // Check the scheme against `Bearer`, ignoring ASCII case.
    let mut scheme: Vec<char> = Vec::new();
    let mut k: usize = 0;
    while k < sp
        invariant
            k <= sp,
            scheme@ == cs@.take(sp as int).take(k as int),
        decreases sp - k,
    {
        proof {
            assert(cs@.take(sp as int).take(k + 1) =~= cs@.take(sp as int).take(k as int).push(
                cs@[k as int],
            ));
        }
        scheme.push(cs[k]);
        k += 1;
    }
    proof {
        assert(scheme@ =~= header_value@.take(sp as int));
    }
    let bearer = chars_of("Bearer");
    if !chars_eq_ignore_ascii_case(&scheme, &bearer) {
        return None;
    }
    // Trim the rest.
    let ghost rest = header_value@.skip(sp as int + 1);
    let n = cs.len();
    proof {
        assert(sp < n);
    }
    let mut st: usize = sp + 1;
    while st < cs.len() && is_whitespace_char_exec(cs[st])
        invariant
            sp + 1 <= st <= cs@.len(),
            forall|k2: int| sp + 1 <= k2 < st ==> is_whitespace_char(#[trigger] cs@[k2]),
        decreases cs@.len() - st,
    {
        st += 1;
    }
    let mut en: usize = cs.len();
    while en > st && is_whitespace_char_exec(cs[en - 1])
        invariant
            st <= en <= cs@.len(),
            forall|k2: int| en <= k2 < cs@.len() ==> is_whitespace_char(#[trigger] cs@[k2]),
        decreases en,
    {
        en -= 1;
    }
    proof {
        assert forall|k2: int| 0 <= k2 < st - sp - 1 implies is_whitespace_char(#[trigger] rest[k2]) by {
            assert(rest[k2] == cs@[sp + 1 + k2]);
        }
        assert(st - sp - 1 == rest.len() || !is_whitespace_char(rest[st - sp - 1]));
        lemma_trim_start_skip(rest, st - sp - 1);
        let mid = rest.skip(st - sp - 1);
        assert forall|k2: int| en - st <= k2 < mid.len() implies is_whitespace_char(#[trigger] mid[k2]) by {
            assert(mid[k2] == cs@[st + k2]);
        }
        assert(en - st == 0 || !is_whitespace_char(mid[en - st - 1]));
        lemma_trim_end_take(mid, en - st);
        assert(trim_end(trim_start(rest)) == mid.take(en - st));
    }
    if en == st {
        proof {
            assert(trim_end(trim_start(rest)) =~= Seq::<char>::empty());
        }
        return None;
    }
    // Copy out the token.
    let mut token: Vec<char> = Vec::new();
    let mut k: usize = st;
    while k < en
        invariant
            st <= k <= en,
            en <= cs@.len(),
            token@ =~= cs@.subrange(st as int, k as int),
        decreases en - k,
    {
        proof {
            assert(cs@.subrange(st as int, k + 1) =~= cs@.subrange(st as int, k as int).push(
                cs@[k as int],
            ));
        }
        token.push(cs[k]);
        k += 1;
    }
    proof {
        assert(token@ =~= trim_end(trim_start(rest)));
    }
    Some(string_from_chars(&token))
}

} // verus!
