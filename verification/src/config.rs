//! Runtime configuration assembled from raw environment values, with the
//! same defaults and fallback parsing the service has always used.

use vstd::prelude::*;
use vstd::string::StringExecFns;

use crate::text::{char_code, chars_of};

verus! {

/// Service configuration. Every field falls back to a built-in default when
/// its environment value is absent or (for the numeric fields) unparsable.
#[derive(Debug)]
pub struct Config {
    pub port: String,
    pub jwt_secret: String,
    pub jwt_refresh_secret_key: String,
    pub jwt_algorithm: String,
    pub jwt_expire_minutes: u32,
    pub jwt_refresh_expire_days: u32,
}

/// Whether every character is a decimal digit.
pub open spec fn all_digits(s: Seq<char>) -> bool {
    forall|i: int| 0 <= i < s.len() ==> '0' as int <= (#[trigger] s[i]) as int <= '9' as int
}

/// The numeric value of a digit sequence, most significant digit first.
pub open spec fn dec_value(s: Seq<char>) -> int
    decreases s.len(),
{
    if s.len() == 0 {
        0
    } else {
        dec_value(s.drop_last()) * 10 + (s.last() as int - '0' as int)
    }
}

/// What parsing a `u32` accepts: an optional leading `+`, then at least one
/// digit, with the value in range.
pub open spec fn spec_parse_u32(s: Seq<char>) -> Option<u32> {
    let digits = if s.len() > 0 && s[0] == '+' {
        s.skip(1)
    } else {
        s
    };
    if digits.len() > 0 && all_digits(digits) && dec_value(digits) <= u32::MAX {
        Some(dec_value(digits) as u32)
    } else {
        None
    }
}

proof fn lemma_dec_value_nonneg(s: Seq<char>)
    requires
        all_digits(s),
    ensures
        dec_value(s) >= 0,
    decreases s.len(),
{
    if s.len() > 0 {
        lemma_dec_value_nonneg(s.drop_last());
    }
}

/// A digit string's value only grows as digits are appended.
proof fn lemma_dec_value_prefix(s: Seq<char>, k: int)
    requires
        all_digits(s),
        0 <= k <= s.len(),
    ensures
        dec_value(s.take(k)) <= dec_value(s),
    decreases s.len(),
{
    if k < s.len() {
        lemma_dec_value_prefix(s.drop_last(), k);
        assert(s.drop_last().take(k) =~= s.take(k));
        lemma_dec_value_nonneg(s.drop_last());
    } else {
        assert(s.take(k) =~= s);
    }
}

/// Parses a decimal `u32` exactly as the standard parser accepts it: an
/// optional leading `+`, one or more digits, value within range.
pub fn parse_u32(s: &str) -> (r: Option<u32>)
    ensures
        r == spec_parse_u32(s@),
{
    let cs = chars_of(s);
    let start: usize = if cs.len() > 0 && cs[0] == '+' {
        1
    } else {
        0
    };
    let ghost digits = if s@.len() > 0 && s@[0] == '+' {
        s@.skip(1)
    } else {
        s@
    };
    proof {
        assert(cs@.skip(start as int) =~= digits);
    }
    if cs.len() == start {
        return None;
    }
    let mut val: u32 = 0;
    let mut i: usize = start;
    while i < cs.len()
        invariant
            start <= i <= cs@.len(),
            cs@ == s@,
            cs@.skip(start as int) =~= digits,
            digits == (if s@.len() > 0 && s@[0] == '+' {
                s@.skip(1)
            } else {
                s@
            }),
            all_digits(digits.take(i - start)),
            val == dec_value(digits.take(i - start)),
        decreases cs@.len() - i,
    {
        let c = cs[i];
        let d = char_code(c);
        proof {
            assert(digits[i - start] == cs@[i as int]);
            assert(digits.take(i - start + 1).drop_last() =~= digits.take(i - start));
            assert(digits.take(i - start + 1).last() == digits[i - start]);
            assert('0' as int == 48 && '9' as int == 57);
        }
        if d < 48 || d > 57 {
            proof {
                assert(!('0' as int <= digits[i - start] as int <= '9' as int));
                assert(!all_digits(digits));
            }
            return None;
        }
        let digit = d - 48;
        proof {
            assert('0' as int <= c as int <= '9' as int);
            assert(all_digits(digits.take(i - start + 1))) by {
                assert forall|k: int| 0 <= k < i - start + 1 implies '0' as int <= (
                #[trigger] digits.take(i - start + 1)[k]) as int <= '9' as int by {
                    if k < i - start {
                        assert(digits.take(i - start + 1)[k] == digits.take(i - start)[k]);
                    } else {
                        assert(digits.take(i - start + 1)[k] == c);
                    }
                }
            }
            assert(dec_value(digits.take(i - start + 1)) == dec_value(digits.take(i - start)) * 10
                + (c as int - 48));
        }
        if val > (u32::MAX - digit) / 10 {
            proof {
                assert(val as int * 10 + digit as int > u32::MAX as int) by (nonlinear_arith)
                    requires
                        val as int > (u32::MAX as int - digit as int) / 10,
                        0 <= digit as int <= 9,
                        val as int >= 0,
                ;
                if all_digits(digits) {
                    lemma_dec_value_prefix(digits, i - start + 1);
                    assert(dec_value(digits.take(i - start + 1)) > u32::MAX);
                }
            }
            return None;
        }
        proof {
            assert(val as int * 10 + digit as int <= u32::MAX as int) by (nonlinear_arith)
                requires
                    val as int <= (u32::MAX as int - digit as int) / 10,
                    0 <= digit as int <= 9,
                    val as int >= 0,
            ;
        }
        val = val * 10 + digit;
        i += 1;
    }
    proof {
        assert(digits.take(cs@.len() - start) =~= digits);
    }
    Some(val)
}

/// Assembles the configuration from the raw environment values (`None` for an
/// unset variable), applying the service defaults: port `3000`, secrets
/// `default_secret` / `default_refresh_secret`, algorithm `HS256`, token
/// lifetimes of 60 minutes and 7 days.
pub fn load_env(
    port: Option<String>,
    jwt_secret: Option<String>,
    jwt_refresh_secret_key: Option<String>,
    jwt_algorithm: Option<String>,
    jwt_expire_minutes: Option<String>,
    jwt_refresh_expire_days: Option<String>,
) -> (c: Config)
    ensures
        c.port@ == (match port {
            Some(p) => p@,
            None => "3000"@,
        }),
        c.jwt_secret@ == (match jwt_secret {
            Some(p) => p@,
            None => "default_secret"@,
        }),
        c.jwt_refresh_secret_key@ == (match jwt_refresh_secret_key {
            Some(p) => p@,
            None => "default_refresh_secret"@,
        }),
        c.jwt_algorithm@ == (match jwt_algorithm {
            Some(p) => p@,
            None => "HS256"@,
        }),
        c.jwt_expire_minutes == (match jwt_expire_minutes {
            Some(p) => match spec_parse_u32(p@) {
                Some(v) => v,
                None => 60u32,
            },
            None => 60u32,
        }),
        c.jwt_refresh_expire_days == (match jwt_refresh_expire_days {
            Some(p) => match spec_parse_u32(p@) {
                Some(v) => v,
                None => 7u32,
            },
            None => 7u32,
        }),
{
    let port = match port {
        Some(p) => p,
        None => String::from_str("3000"),
    };
    let jwt_secret = match jwt_secret {
        Some(p) => p,
        None => String::from_str("default_secret"),
    };
    let jwt_refresh_secret_key = match jwt_refresh_secret_key {
        Some(p) => p,
        None => String::from_str("default_refresh_secret"),
    };
    let jwt_algorithm = match jwt_algorithm {
        Some(p) => p,
        None => String::from_str("HS256"),
    };
    let jwt_expire_minutes = match jwt_expire_minutes {
        Some(p) => match parse_u32(p.as_str()) {
            Some(v) => v,
            None => 60,
        },
        None => 60,
    };
    let jwt_refresh_expire_days = match jwt_refresh_expire_days {
        Some(p) => match parse_u32(p.as_str()) {
            Some(v) => v,
            None => 7,
        },
        None => 7,
    };
    Config {
        port,
        jwt_secret,
        jwt_refresh_secret_key,
        jwt_algorithm,
        jwt_expire_minutes,
        jwt_refresh_expire_days,
    }
}

} // verus!
