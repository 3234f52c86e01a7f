//! Port and hostname validation shared by the route operations.

use vstd::prelude::*;

verus! {

/// Characters allowed in a configured host name or domain key: ASCII
/// letters and digits, `.`, `-`, and `*` (for wildcard keys).
pub open spec fn is_ascii_alphanumeric_char(c: char) -> bool {
    (48 <= c as u32 && c as u32 <= 57) || (65 <= c as u32 && c as u32 <= 90) || (97 <= c as u32
        && c as u32 <= 122)
}

pub open spec fn is_hostname_char(c: char) -> bool {
    is_ascii_alphanumeric_char(c) || c == '.' || c == '-' || c == '*'
}

/// A hostname is non-empty, made of hostname characters, and neither
/// starts nor ends with a dash.
pub open spec fn hostname_chars_ok(s: Seq<char>) -> bool {
    &&& s.len() > 0
    &&& (forall|i: int| 0 <= i < s.len() ==> is_hostname_char(#[trigger] s[i]))
    &&& s[0] != '-'
    &&& s.last() != '-'
}

/// The characters `str::trim` removes: the Unicode white-space set.
pub open spec fn is_space_char(c: char) -> bool {
    ||| (9 <= c as u32 && c as u32 <= 13)
    ||| c as u32 == 32
    ||| c as u32 == 0x85
    ||| c as u32 == 0xA0
    ||| c as u32 == 0x1680
    ||| (0x2000 <= c as u32 && c as u32 <= 0x200A)
    ||| c as u32 == 0x2028
    ||| c as u32 == 0x2029
    ||| c as u32 == 0x202F
    ||| c as u32 == 0x205F
    ||| c as u32 == 0x3000
}

/// A custom port must be non-zero and must avoid the two ports the proxy
/// itself listens on.
pub fn validate_custom_port(port: u16) -> (r: Result<(), String>)
    ensures
        port == 0 ==> (r matches Err(m) && m@ == "Port must be between 1 and 65535"@),
        port == 80 || port == 443 ==> (r matches Err(m) && m@ == "Port cannot be 80 or 443 (reserved for HTTP/HTTPS)"@),
        port != 0 && port != 80 && port != 443 ==> r is Ok,
{
    if port == 0 {
        return Err("Port must be between 1 and 65535".to_owned());
    }
    if port == 80 || port == 443 {
        return Err("Port cannot be 80 or 443 (reserved for HTTP/HTTPS)".to_owned());
    }
    Ok(())
}

/// A port of any service must simply be non-zero.
pub fn validate_port_range(port: u16) -> (r: Result<(), String>)
    ensures
        port == 0 ==> (r matches Err(m) && m@ == "Port must be between 1 and 65535"@),
        port != 0 ==> r is Ok,
{
    if port == 0 {
        return Err("Port must be between 1 and 65535".to_owned());
    }
    Ok(())
}

/// Whether the string is empty or holds only whitespace.
pub fn is_empty_or_whitespace(s: &str) -> (r: bool)
    ensures
        r == (forall|i: int| 0 <= i < s@.len() ==> is_space_char(#[trigger] s@[i])),
{
    let n: usize = s.unicode_len();
    let mut i: usize = 0;
    while i < n
        invariant
            i <= n,
            n == s@.len(),
            forall|j: int| 0 <= j < i ==> is_space_char(#[trigger] s@[j]),
        decreases n - i,
    {
        let c = s.get_char(i) as u32;
        let ws = (9 <= c && c <= 13) || c == 32 || c == 0x85 || c == 0xA0 || c == 0x1680 || (0x2000
            <= c && c <= 0x200A) || c == 0x2028 || c == 0x2029 || c == 0x202F || c == 0x205F || c
            == 0x3000;
        if !ws {
            return false;
        }
        i = i + 1;
    }
    true
}

/// Whether every character of the hostname is allowed and the name does
/// not begin or end with a dash.
pub fn validate_hostname_chars(hostname: &str) -> (r: bool)
    ensures
        r == hostname_chars_ok(hostname@),
{
    let n: usize = hostname.unicode_len();
    if n == 0 {
        return false;
    }
    let mut i: usize = 0;
    while i < n
        invariant
            i <= n,
            n == hostname@.len(),
            forall|j: int| 0 <= j < i ==> is_hostname_char(#[trigger] hostname@[j]),
        decreases n - i,
    {
        let c = hostname.get_char(i);
        let code = c as u32;
        let alnum = (48 <= code && code <= 57) || (65 <= code && code <= 90) || (97 <= code
            && code <= 122);
        if !(alnum || c == '.' || c == '-' || c == '*') {
            return false;
        }
        i = i + 1;
    }
    if hostname.get_char(0) == '-' {
        return false;
    }
    if hostname.get_char(n - 1) == '-' {
        return false;
    }
    true
}

} // verus!
