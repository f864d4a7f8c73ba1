//! Network server configuration: bind host and port, with a verified
//! validator for IP address literals.

use vstd::prelude::*;
use vstd::string::{StrSliceExecFns, StringExecFns};

use crate::byteops::{dec_string, pow10, spec_dec_chars};

verus! {

/// Errors of server configuration validation.
#[derive(Debug, PartialEq)]
pub enum ServerConfigError {
    /// The port number is invalid (zero).
    InvalidPort { port: u16 },
    /// The host is not an IP address literal.
    InvalidHost { host: String },
}

impl ServerConfigError {
    /// A human-readable description of the error.
    pub fn message(&self) -> (r: String)
        ensures
            match self {
                ServerConfigError::InvalidPort { port } => r@ == "Invalid port: "@ + spec_dec_chars(
                    *port as u64,
                ),
                ServerConfigError::InvalidHost { host } => r@ == "Invalid host: "@ + host@,
            },
    {
        match self {
            ServerConfigError::InvalidPort { port } => {
                let mut s = String::from_str("Invalid port: ");
                let d = dec_string(*port as u64);
                s.append(d.as_str());
                s
            },
            ServerConfigError::InvalidHost { host } => {
                let mut s = String::from_str("Invalid host: ");
                s.append(host.as_str());
                s
            },
        }
    }
}

/// Whether `c` is a decimal digit.
pub open spec fn spec_is_dec(c: char) -> bool {
    48 <= c as u32 <= 57
}

/// Whether `c` is a hexadecimal digit.
pub open spec fn spec_is_hex(c: char) -> bool {
    spec_is_dec(c) || (97 <= c as u32 <= 102) || (65 <= c as u32 <= 70)
}

/// Number of consecutive decimal digits at `pos`.
pub open spec fn spec_dec_run(s: Seq<char>, pos: int) -> int
    decreases s.len() - pos,
{
    if pos < 0 || pos >= s.len() || !spec_is_dec(s[pos]) {
        0
    } else {
        1 + spec_dec_run(s, pos + 1)
    }
}

/// Number of consecutive hexadecimal digits at `pos`.
pub open spec fn spec_hex_run(s: Seq<char>, pos: int) -> int
    decreases s.len() - pos,
{
    if pos < 0 || pos >= s.len() || !spec_is_hex(s[pos]) {
        0
    } else {
        1 + spec_hex_run(s, pos + 1)
    }
}

/// Value of the `n` decimal digits at `pos`.
pub open spec fn spec_dec_group_val(s: Seq<char>, pos: int, n: int) -> int
    decreases n,
{
    if n <= 0 {
        0
    } else {
        spec_dec_group_val(s, pos, n - 1) * 10 + (s[pos + n - 1] as u32 - 48)
    }
}

proof fn lemma_dec_run_bounds(s: Seq<char>, pos: int)
    requires
        0 <= pos <= s.len(),
    ensures
        0 <= spec_dec_run(s, pos) <= s.len() - pos,
        forall|k: int| pos <= k < pos + spec_dec_run(s, pos) ==> spec_is_dec(#[trigger] s[k]),
    decreases s.len() - pos,
{
    if pos < s.len() && spec_is_dec(s[pos]) {
        lemma_dec_run_bounds(s, pos + 1);
    }
}

proof fn lemma_hex_run_bounds(s: Seq<char>, pos: int)
    requires
        0 <= pos <= s.len(),
    ensures
        0 <= spec_hex_run(s, pos) <= s.len() - pos,
    decreases s.len() - pos,
{
    if pos < s.len() && spec_is_hex(s[pos]) {
        lemma_hex_run_bounds(s, pos + 1);
    }
}

proof fn lemma_dec_group_val_bound(s: Seq<char>, pos: int, n: int)
    requires
        0 <= n,
        forall|k: int| pos <= k < pos + n ==> spec_is_dec(#[trigger] s[k]),
    ensures
        0 <= spec_dec_group_val(s, pos, n) < pow10(n as nat),
    decreases n,
{
    if n > 0 {
        lemma_dec_group_val_bound(s, pos, n - 1);
        assert(pow10(n as nat) == 10 * pow10((n - 1) as nat));
    }
}

/// An IPv4 literal from `pos` on: `groups` dot-separated octets, each
/// one to three digits, below 256, without a leading zero, reaching
/// the end of the string.
pub open spec fn spec_valid_ipv4_from(s: Seq<char>, pos: int, groups: int) -> bool
    decreases groups,
{
    let n = spec_dec_run(s, pos);
    if !(1 <= n <= 3) {
        false
    } else if n > 1 && s[pos] as u32 == 48 {
        false
    } else if spec_dec_group_val(s, pos, n) > 255 {
        false
    } else if groups <= 1 {
        pos + n == s.len()
    } else if pos + n < s.len() && s[pos + n] as u32 == 46 {
        spec_valid_ipv4_from(s, pos + n + 1, groups - 1)
    } else {
        false
    }
}

/// An IPv4 address literal: four dot-separated octets.
pub open spec fn spec_valid_ipv4(s: Seq<char>) -> bool {
    spec_valid_ipv4_from(s, 0, 4)
}

/// An IPv6 literal from a group boundary at `pos`, with `done` groups
/// already read and whether a `::` elision was seen. Each group is one
/// to four hexadecimal digits; the last two groups may instead be an
/// embedded IPv4 address; eight groups in total, fewer with an
/// elision.
pub open spec fn spec_valid_ipv6_from(s: Seq<char>, pos: int, done: int, elided: bool) -> bool
    decreases s.len() - pos,
        when 0 <= pos <= s.len()
        via spec_valid_ipv6_from_decreases
{
    if pos >= s.len() {
        false
    } else {
        let h = spec_hex_run(s, pos);
        let d = spec_dec_run(s, pos);
        if h == 0 {
            false
        } else if d > 0 && pos + d < s.len() && s[pos + d] as u32 == 46 {
            spec_valid_ipv4_from(s, pos, 4) && (if elided {
                done <= 5
            } else {
                done == 6
            })
        } else if h > 4 {
            false
        } else if pos + h == s.len() {
            if elided {
                done + 1 <= 7
            } else {
                done + 1 == 8
            }
        } else if s[pos + h] as u32 != 58 {
            false
        } else if pos + h + 1 == s.len() {
            false
        } else if s[pos + h + 1] as u32 == 58 {
            if elided {
                false
            } else if pos + h + 2 == s.len() {
                done + 1 <= 7
            } else {
                spec_valid_ipv6_from(s, pos + h + 2, done + 1, true)
            }
        } else {
            spec_valid_ipv6_from(s, pos + h + 1, done + 1, elided)
        }
    }
}

#[via_fn]
proof fn spec_valid_ipv6_from_decreases(s: Seq<char>, pos: int, done: int, elided: bool) {
    if 0 <= pos < s.len() {
        lemma_hex_run_bounds(s, pos);
    }
}

/// An IPv6 address literal.
pub open spec fn spec_valid_ipv6(s: Seq<char>) -> bool {
    if s.len() >= 2 && s[0] as u32 == 58 && s[1] as u32 == 58 {
        s.len() == 2 || spec_valid_ipv6_from(s, 2, 0, true)
    } else if s.len() >= 1 && s[0] as u32 == 58 {
        false
    } else {
        spec_valid_ipv6_from(s, 0, 0, false)
    }
}

/// An IP address literal, version 4 or 6.
pub open spec fn spec_valid_ip(s: Seq<char>) -> bool {
    spec_valid_ipv4(s) || spec_valid_ipv6(s)
}

fn dec_run_at(s: &str, len: usize, pos: usize) -> (r: usize)
    requires
        len == s@.len(),
        pos <= len,
    ensures
        r == spec_dec_run(s@, pos as int),
        pos + r <= len,
    decreases len - pos,
{
    if pos == len {
        return 0;
    }
    let c = s.get_char(pos);
    if (c as u32) >= 48 && (c as u32) <= 57 {
        1 + dec_run_at(s, len, pos + 1)
    } else {
        0
    }
}

fn hex_run_at(s: &str, len: usize, pos: usize) -> (r: usize)
    requires
        len == s@.len(),
        pos <= len,
    ensures
        r == spec_hex_run(s@, pos as int),
        pos + r <= len,
    decreases len - pos,
{
    if pos == len {
        return 0;
    }
    let c = s.get_char(pos) as u32;
    if (c >= 48 && c <= 57) || (c >= 97 && c <= 102) || (c >= 65 && c <= 70) {
        1 + hex_run_at(s, len, pos + 1)
    } else {
        0
    }
}

fn dec_group_value(s: &str, len: usize, pos: usize, n: usize) -> (r: u32)
    requires
        len == s@.len(),
        pos + n <= len,
        n <= 3,
        forall|k: int| pos <= k < pos + n ==> spec_is_dec(#[trigger] s@[k]),
    ensures
        r == spec_dec_group_val(s@, pos as int, n as int),
{
    proof {
        lemma_dec_group_val_bound(s@, pos as int, n as int);
        assert(pow10(3) == 1000) by {
            reveal_with_fuel(pow10, 4);
        };
    }
    let mut v: u32 = 0;
    let mut i: usize = 0;
    while i < n
        invariant
            0 <= i <= n,
            n <= 3,
            len == s@.len(),
            pos + n <= len,
            forall|k: int| pos <= k < pos + n ==> spec_is_dec(#[trigger] s@[k]),
            v == spec_dec_group_val(s@, pos as int, i as int),
            v < 1000,
        decreases n - i,
    {
        proof {
            lemma_dec_group_val_bound(s@, pos as int, i as int);
            assert(pow10(2) == 100) by {
                reveal_with_fuel(pow10, 3);
            };
            if i < 2 {
                assert(pow10(i as nat) <= pow10(2)) by {
                    reveal_with_fuel(pow10, 3);
                };
            }
            assert(spec_is_dec(s@[pos + i]));
        }
        let c = s.get_char(pos + i) as u32;
        v = v * 10 + (c - 48);
        i = i + 1;
    }
    v
}

fn valid_ipv4_from(s: &str, len: usize, pos: usize, groups: u32) -> (r: bool)
    requires
        len == s@.len(),
        pos <= len,
        1 <= groups <= 4,
    ensures
        r == spec_valid_ipv4_from(s@, pos as int, groups as int),
    decreases groups,
{
    let n = dec_run_at(s, len, pos);
    if n == 0 || n > 3 {
        return false;
    }
    proof {
        lemma_dec_run_bounds(s@, pos as int);
    }
    if n > 1 && (s.get_char(pos) as u32) == 48 {
        return false;
    }
    if dec_group_value(s, len, pos, n) > 255 {
        return false;
    }
    if groups == 1 {
        return pos + n == len;
    }
    if pos + n == len {
        return false;
    }
    if (s.get_char(pos + n) as u32) != 46 {
        return false;
    }
    valid_ipv4_from(s, len, pos + n + 1, groups - 1)
}

fn valid_ipv6_from(s: &str, len: usize, pos: usize, done: u64, elided: bool) -> (r: bool)
    requires
        len == s@.len(),
        pos <= len,
        done <= pos,
    ensures
        r == spec_valid_ipv6_from(s@, pos as int, done as int, elided),
    decreases len - pos,
{
    if pos >= len {
        return false;
    }
    let h = hex_run_at(s, len, pos);
    let d = dec_run_at(s, len, pos);
    if h == 0 {
        return false;
    }
    if d > 0 && pos + d < len && (s.get_char(pos + d) as u32) == 46 {
        return valid_ipv4_from(s, len, pos, 4) && (if elided {
            done <= 5
        } else {
            done == 6
        });
    }
    if h > 4 {
        return false;
    }
    if pos + h == len {
        return if elided {
            done + 1 <= 7
        } else {
            done + 1 == 8
        };
    }
    if (s.get_char(pos + h) as u32) != 58 {
        return false;
    }
    if pos + h + 1 == len {
        return false;
    }
    if (s.get_char(pos + h + 1) as u32) == 58 {
        if elided {
            return false;
        }
        if pos + h + 2 == len {
            return done + 1 <= 7;
        }
        return valid_ipv6_from(s, len, pos + h + 2, done + 1, true);
    }
    valid_ipv6_from(s, len, pos + h + 1, done + 1, elided)
}

/// Whether `host` is an IP address literal, version 4 or 6.
pub fn is_valid_ip(host: &str) -> (r: bool)
    ensures
        r == spec_valid_ip(host@),
{
    let len = host.unicode_len();
    let v4 = valid_ipv4_from(host, len, 0, 4);
    let v6 = if len >= 2 && (host.get_char(0) as u32) == 58 && (host.get_char(1) as u32) == 58 {
        len == 2 || valid_ipv6_from(host, len, 2, 0, true)
    } else if len >= 1 && (host.get_char(0) as u32) == 58 {
        false
    } else {
        valid_ipv6_from(host, len, 0, 0, false)
    };
    v4 || v6
}

/// Network server configuration.
pub struct ServerConfig {
    /// The host address to bind to, an IP literal such as `127.0.0.1`.
    pub host: String,
    /// The port to listen on; must not be zero.
    pub port: u16,
}

/// The default bind host.
pub open spec fn spec_default_host() -> Seq<char> {
    "127.0.0.1"@
}

impl ServerConfig {
    /// Validates the configuration: the host must be an IP address
    /// literal and the port must not be zero.
    pub fn validate(&self) -> (r: Result<(), ServerConfigError>)
        ensures
            r is Ok <==> (spec_valid_ip(self.host@) && self.port >= 1),
            !spec_valid_ip(self.host@) ==> (r matches Err(e) && e matches
                ServerConfigError::InvalidHost { host } && host@ == self.host@),
            spec_valid_ip(self.host@) && self.port == 0 ==> r == Err::<(), ServerConfigError>(
                ServerConfigError::InvalidPort { port: 0 },
            ),
    {
        self.check_host()?;
        self.check_port()?;
        Ok(())
    }

    /// The host must be an IP address literal.
    pub fn check_host(&self) -> (r: Result<(), ServerConfigError>)
        ensures
            r is Ok <==> spec_valid_ip(self.host@),
            r matches Err(e) ==> (e matches ServerConfigError::InvalidHost { host } && host@
                == self.host@),
    {
        if is_valid_ip(self.host.as_str()) {
            Ok(())
        } else {
            Err(ServerConfigError::InvalidHost { host: self.host.clone() })
        }
    }

    /// The port must not be zero.
    pub fn check_port(&self) -> (r: Result<(), ServerConfigError>)
        ensures
            r is Ok <==> self.port >= 1,
            r matches Err(e) ==> e == (ServerConfigError::InvalidPort { port: self.port })
                && self.port == 0,
    {
        if self.port >= 1 {
            Ok(())
        } else {
            Err(ServerConfigError::InvalidPort { port: self.port })
        }
    }
}

impl Default for ServerConfig {
    /// The default configuration: local loopback on port 21524.
    fn default() -> (r: Self)
        ensures
            r.host@ == spec_default_host(),
            r.port == 21524,
    {
        Self { host: String::from_str("127.0.0.1"), port: 21524 }
    }
}

} // verus!
