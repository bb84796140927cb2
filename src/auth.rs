//! Reading the bearer token of an `Authorization` header.
use vstd::prelude::*;
use vstd::string::StrSliceExecFns;

verus! {

/// The claims of a session token.
pub struct UserToken {
    /// Issued at, in seconds.
    pub iat: i64,
    /// Expires at, in seconds.
    pub exp: i64,
    pub user_id: i32,
    pub preferred_username: String,
    pub nickname: String,
}

/// The caller of an operation, once authenticated.
#[derive(Clone, Copy, Debug, PartialEq, Eq, Structural)]
pub struct Context {
    pub user_id: i32,
}

/// Unicode white space, as `char::is_whitespace` and `str::trim` know it.
pub open spec fn is_ws(c: char) -> bool {
    let v = c as u32;
    (9 <= v <= 13) || v == 32 || v == 0x85 || v == 0xa0 || v == 0x1680 || (0x2000 <= v <= 0x200a)
        || v == 0x2028 || v == 0x2029 || v == 0x202f || v == 0x205f || v == 0x3000
}

/// The `i`-th letter of "bearer", in either case.
pub open spec fn bearer_char(i: int, c: char) -> bool {
    if i == 0 {
        c == 'b' || c == 'B'
    } else if i == 1 || i == 4 {
        c == 'e' || c == 'E'
    } else if i == 2 {
        c == 'a' || c == 'A'
    } else {
        c == 'r' || c == 'R'
    }
}

/// The text starts with "bearer", in any case.
pub open spec fn has_bearer_prefix(s: Seq<char>) -> bool {
    s.len() >= 6 && forall|i: int| 0 <= i < 6 ==> bearer_char(i, #[trigger] s[i])
}

/// `r` is `s` without its leading and trailing white space.
pub open spec fn is_trim_of(r: Seq<char>, s: Seq<char>) -> bool {
    exists|a: int, b: int|
        0 <= a <= b <= s.len() && r == s.subrange(a, b) && (forall|i: int|
            0 <= i < a ==> is_ws(#[trigger] s[i])) && (forall|i: int|
            b <= i < s.len() ==> is_ws(#[trigger] s[i])) && (a < b ==> !is_ws(s[a]) && !is_ws(
            s[b - 1],
        ))
}

fn is_ws_exec(c: char) -> (r: bool)
    ensures
        r == is_ws(c),
{
    let v = c as u32;
    (9 <= v && v <= 13) || v == 32 || v == 0x85 || v == 0xa0 || v == 0x1680 || (0x2000 <= v && v
        <= 0x200a) || v == 0x2028 || v == 0x2029 || v == 0x202f || v == 0x205f || v == 0x3000
}

fn bearer_char_exec(i: usize, c: char) -> (r: bool)
    ensures
        r == bearer_char(i as int, c),
{
    if i == 0 {
        c == 'b' || c == 'B'
    } else if i == 1 || i == 4 {
        c == 'e' || c == 'E'
    } else if i == 2 {
        c == 'a' || c == 'A'
    } else {
        c == 'r' || c == 'R'
    }
}

/// The token of a header value "Bearer <token>" (the scheme in any case),
/// trimmed of white space; empty when the value has no such scheme.
pub fn extract_token_from_str(authen_str: &str) -> (r: &str)
    ensures
        has_bearer_prefix(authen_str@) ==> is_trim_of(r@, authen_str@.skip(6)),
        !has_bearer_prefix(authen_str@) ==> r@.len() == 0,
{
    let n = authen_str.unicode_len();
    if n < 6 {
        return authen_str.substring_char(0, 0);
    }
    let mut i: usize = 0;
    while i < 6
        invariant
            n == authen_str@.len(),
            n >= 6,
            i <= 6,
            forall|k: int| 0 <= k < i ==> bearer_char(k, #[trigger] authen_str@[k]),
        decreases 6 - i,
    {
        if !bearer_char_exec(i, authen_str.get_char(i)) {
            return authen_str.substring_char(0, 0);
        }
        i = i + 1;
    }
    let ghost rest = authen_str@.skip(6);
    let mut a: usize = 6;
    while a < n && is_ws_exec(authen_str.get_char(a))
        invariant
            n == authen_str@.len(),
            6 <= a <= n,
            forall|k: int| 6 <= k < a ==> is_ws(#[trigger] authen_str@[k]),
        decreases n - a,
    {
        a = a + 1;
    }
    let mut b: usize = n;
    while b > a && is_ws_exec(authen_str.get_char(b - 1))
        invariant
            n == authen_str@.len(),
            6 <= a <= b <= n,
            forall|k: int| b <= k < n ==> is_ws(#[trigger] authen_str@[k]),
        decreases b - a,
    {
        b = b - 1;
    }
    let r = authen_str.substring_char(a, b);
    proof {
        let a2 = a - 6;
        let b2 = b - 6;
        assert(r@ =~= rest.subrange(a2 as int, b2 as int));
        assert(forall|k: int| 0 <= k < a2 ==> rest[k] == authen_str@[k + 6]);
        assert(forall|k: int| b2 <= k < rest.len() ==> rest[k] == authen_str@[k + 6]);
        assert(is_trim_of(r@, rest));
    }
    r
}

} // verus!
