//! Connection settings chosen in the GUI.

use crate::text::chars_of;
use vstd::prelude::*;

verus! {

broadcast use vstd::string::group_string_axioms;

/// How the client logs in to the remote host.
#[derive(Debug, Clone, Copy, PartialEq, Eq, Structural)]
pub enum AuthMethod {
    SshKey,
    Password,
}

/// Credentials for password login.
pub struct PasswordAuth<'a> {
    pub host: &'a str,
    pub port: u16,
    pub username: &'a str,
    pub password: &'a str,
}

/// The port used when none, or no valid one, is given.
pub const DEFAULT_SSH_PORT: u16 = 22;

/// The value of the decimal digits `ds`.
pub open spec fn digits_value(ds: Seq<char>) -> int
    decreases ds.len(),
{
    if ds.len() == 0 {
        0
    } else {
        10 * digits_value(ds.drop_last()) + (ds.last() as u32 - 48)
    }
}

pub open spec fn all_digits(ds: Seq<char>) -> bool {
    forall|i: int| 0 <= i < ds.len() ==> '0' <= #[trigger] ds[i] && ds[i] <= '9'
}

/// What `str::parse::<u16>` accepts: an optional `+`, then at least one
/// decimal digit and nothing else, with a value that fits in `u16`.
pub open spec fn port_digits(cs: Seq<char>) -> Seq<char> {
    if cs.len() > 0 && cs[0] == '+' {
        cs.drop_first()
    } else {
        cs
    }
}

pub open spec fn parses_as_port(cs: Seq<char>) -> bool {
    let ds = port_digits(cs);
    ds.len() > 0 && all_digits(ds) && digits_value(ds) <= u16::MAX
}

/// The port typed in the GUI, or 22 when it does not parse as a `u16`.
pub fn port_or_default(text: &str) -> (port: u16)
    ensures
        parses_as_port(text@) ==> port == digits_value(port_digits(text@)),
        !parses_as_port(text@) ==> port == DEFAULT_SSH_PORT,
{
    let cs = chars_of(text);
    let start: usize = if cs.len() > 0 && cs[0] == '+' {
        1
    } else {
        0
    };
    let ghost ds = port_digits(cs@);
    assert(ds =~= cs@.skip(start as int));
    if start >= cs.len() {
        return DEFAULT_SSH_PORT;
    }
    let mut value: u32 = 0;
    let mut i: usize = start;
    while i < cs.len()
        invariant
            start <= i <= cs@.len(),
            cs@ == text@,
            ds == port_digits(text@),
            ds == cs@.skip(start as int),
            all_digits(ds.take(i - start)),
            value == digits_value(ds.take(i - start)),
            i - start <= ds.len(),
            value <= u16::MAX,
        decreases cs@.len() - i,
    {
        let c = cs[i];
        assert(ds.take(i + 1 - start).drop_last() =~= ds.take(i - start));
        assert(ds[i - start] == c);
        if !(c >= '0' && c <= '9') {
            assert(!all_digits(ds));
            return DEFAULT_SSH_PORT;
        }
        let d: u32 = (c as u32) - 48;
        let next: u32 = value * 10 + d;
        assert(digits_value(ds.take(i + 1 - start)) == next);
        if next > 65535 {
            proof {
                if all_digits(ds) {
                    lemma_digits_prefix_le(ds, (i + 1 - start) as int);
                }
            }
            return DEFAULT_SSH_PORT;
        }
        value = next;
        i = i + 1;
    }
    assert(ds.take(i - start) =~= ds);
    value as u16
}

proof fn lemma_digits_nonneg(ds: Seq<char>)
    requires
        all_digits(ds),
    ensures
        digits_value(ds) >= 0,
    decreases ds.len(),
{
    if ds.len() > 0 {
        let d = ds.drop_last();
        assert(all_digits(d)) by {
            assert forall|i: int| 0 <= i < d.len() implies '0' <= #[trigger] d[i] && d[i] <= '9' by {
                assert(d[i] == ds[i]);
            }
        }
        lemma_digits_nonneg(d);
    }
}

/// Taking more digits never makes the value smaller.
proof fn lemma_digits_prefix_le(ds: Seq<char>, k: int)
    requires
        all_digits(ds),
        0 <= k <= ds.len(),
    ensures
        digits_value(ds.take(k)) <= digits_value(ds),
    decreases ds.len() - k,
{
    if k == ds.len() {
        assert(ds.take(k) =~= ds);
    } else {
        lemma_digits_prefix_le(ds, k + 1);
        assert(ds.take(k + 1).drop_last() =~= ds.take(k));
        assert(all_digits(ds.take(k))) by {
            assert forall|i: int| 0 <= i < k implies '0' <= #[trigger] ds.take(k)[i] && ds.take(k)[i] <= '9' by {
                assert(ds.take(k)[i] == ds[i]);
            }
        }
        lemma_digits_nonneg(ds.take(k));
        assert(ds.take(k + 1).last() == ds[k]);
    }
}

/// Whether the Scan button is enabled: a host and a path are given, no scan
/// runs, and password login also has a user name and a password.
pub fn can_start_scan(
    host: &str,
    remote_path: &str,
    scanning: bool,
    auth: AuthMethod,
    username: &str,
    password: &str,
) -> (ok: bool)
    ensures
        ok == (host@.len() > 0 && remote_path@.len() > 0 && !scanning && (auth == AuthMethod::SshKey || (
        username@.len() > 0 && password@.len() > 0))),
{
    !host.is_empty() && !remote_path.is_empty() && !scanning && (auth == AuthMethod::SshKey || (
    !username.is_empty() && !password.is_empty()))
}

} // verus!
