//! Configuration structures and the plain-text number handling around
//! them: printing a number into an address and reading one back from an
//! environment value. Loading configuration files and the environment
//! itself stays with the I/O layer.

use vstd::prelude::*;
use vstd::string::StringExecFns;
use vstd::utf8::encode_utf8;
use crate::network::{contains_str, vec_contains_str};
use crate::order::str_eq;

verus! {

/// Peer-overlay tuning: identity, dial range, connection budget and
/// committee size.
#[derive(Debug, Clone)]
pub struct PeerConfig {
    /// Bind host.
    pub host: String,
    /// Bind port.
    pub port: u32,
    /// Worker threads for this module.
    pub thread_pool: u32,
    /// Advertised domain name.
    pub out_name: String,
    /// Advertised subdomain number; zero means none.
    pub out_sub_name: u32,
    /// Advertised port.
    pub out_port: u32,
    /// Lowest peer number to dial.
    pub min_ref: u32,
    /// Highest peer number to dial.
    pub max_ref: u32,
    /// Target outbound connection count.
    pub peer_connections: u32,
    /// Committee size per election.
    pub committee_size: u32,
    /// Directory holding the PEM keypair.
    pub keys_path: String,
}

/// Database connection settings of the storage collaborator.
#[derive(Debug, Clone)]
pub struct DbConfig {
    /// Database host.
    pub host: String,
    /// Database port.
    pub port: u32,
    /// Database user.
    pub user: String,
    /// Database password.
    pub password: String,
    /// Database name.
    pub db_name: String,
    /// Worker threads for this module.
    pub thread_pool: u32,
}

/// Messaging settings of the ingestion collaborator.
#[derive(Debug, Clone)]
pub struct NatsConfig {
    /// Broker host.
    pub host: String,
    /// Broker port.
    pub port: u32,
    /// How many channels to subscribe.
    pub no_channels: u32,
    /// Worker threads for this module.
    pub thread_pool: u32,
    /// Directory holding the broker certificate.
    pub cert_store_path: String,
}

/// HTTP read-API settings of the storage collaborator.
#[derive(Debug, Clone)]
pub struct WebServerConfig {
    /// Bind host.
    pub host: String,
    /// Bind port.
    pub port: u32,
    /// Worker threads for this module.
    pub thread_pool: u32,
}

/// The whole node configuration.
#[derive(Debug, Clone)]
pub struct AppConfig {
    /// Peer-overlay settings.
    pub peer: PeerConfig,
    /// HTTP read-API settings.
    pub webserver: WebServerConfig,
    /// Database settings.
    pub database: DbConfig,
    /// Messaging settings.
    pub nats: NatsConfig,
}

/// One banner block of the startup notice.
#[derive(Debug)]
pub struct RootInfo {
    /// Text printed before the logo.
    pub word_before: String,
    /// The logo itself.
    pub logo: String,
    /// Text printed after the logo.
    pub details: String,
}

/// One banner block of the startup notice.
#[derive(Debug)]
pub struct AppInfo {
    /// Text printed before the logo.
    pub word_before: String,
    /// The logo itself.
    pub logo: String,
    /// Text printed after the logo.
    pub details: String,
}

/// The startup notice: a root banner and an application banner.
#[derive(Debug)]
pub struct BuildInfo {
    /// The root banner.
    pub root: RootInfo,
    /// The application banner.
    pub app: AppInfo,
}

/// The decimal digit character of `d`.
pub open spec fn dec_digit(d: int) -> char
    recommends
        0 <= d <= 9,
{
    if d == 0 {
        '0'
    } else if d == 1 {
        '1'
    } else if d == 2 {
        '2'
    } else if d == 3 {
        '3'
    } else if d == 4 {
        '4'
    } else if d == 5 {
        '5'
    } else if d == 6 {
        '6'
    } else if d == 7 {
        '7'
    } else if d == 8 {
        '8'
    } else {
        '9'
    }
}

/// The decimal digits of `n`, most significant first, without leading
/// zeros.
pub open spec fn dec_chars(n: nat) -> Seq<char>
    decreases n,
{
    if n < 10 {
        seq![dec_digit(n as int)]
    } else {
        dec_chars(n / 10) + seq![dec_digit((n % 10) as int)]
    }
}

/// The one-character string of a decimal digit.
fn digit_str(d: u64) -> (r: &'static str)
    requires
        d <= 9,
    ensures
        r@ == seq![dec_digit(d as int)],
{
    if d == 0 {
        proof {
            reveal_strlit("0");
        }
        "0"
    } else if d == 1 {
        proof {
            reveal_strlit("1");
        }
        "1"
    } else if d == 2 {
        proof {
            reveal_strlit("2");
        }
        "2"
    } else if d == 3 {
        proof {
            reveal_strlit("3");
        }
        "3"
    } else if d == 4 {
        proof {
            reveal_strlit("4");
        }
        "4"
    } else if d == 5 {
        proof {
            reveal_strlit("5");
        }
        "5"
    } else if d == 6 {
        proof {
            reveal_strlit("6");
        }
        "6"
    } else if d == 7 {
        proof {
            reveal_strlit("7");
        }
        "7"
    } else if d == 8 {
        proof {
            reveal_strlit("8");
        }
        "8"
    } else {
        proof {
            reveal_strlit("9");
        }
        "9"
    }
}

/// Prints `n` in decimal.
pub fn u64_to_string(n: u64) -> (r: String)
    ensures
        r@ == dec_chars(n as nat),
    decreases n,
{
    if n < 10 {
        String::from_str(digit_str(n))
    } else {
        let mut s = u64_to_string(n / 10);
        s.append(digit_str(n % 10));
        s
    }
}

/// The numeric value of decimal digit bytes, most significant first.
pub open spec fn dec_value(b: Seq<u8>) -> int
    decreases b.len(),
{
    if b.len() == 0 {
        0
    } else {
        dec_value(b.drop_last()) * 10 + (b.last() - 48)
    }
}

/// Whether every byte is a decimal digit.
pub open spec fn all_digits(b: Seq<u8>) -> bool {
    forall|i: int| 0 <= i < b.len() ==> 48 <= #[trigger] b[i] <= 57
}

/// Reads a decimal number: succeeds exactly on nonempty all-digit input
/// whose value fits, as the environment notation for these settings
/// demands.
pub fn parse_u32(s: &str) -> (r: Option<u32>)
    ensures
        ({
            let b = encode_utf8(s@);
            match r {
                Some(v) => b.len() > 0 && all_digits(b) && dec_value(b) == v,
                None => b.len() == 0 || !all_digits(b) || dec_value(b) > u32::MAX,
            }
        }),
{
    let bytes = s.as_bytes();
    let n = bytes.len();
    if n == 0 {
        return None;
    }
    let mut acc: u64 = 0;
    let mut k: usize = 0;
    while k < n
        invariant
            k <= n,
            n == bytes@.len(),
            bytes@ == encode_utf8(s@),
            acc == dec_value(bytes@.take(k as int)),
            acc <= u32::MAX,
            all_digits(bytes@.take(k as int)),
        decreases n - k,
    {
        let b = bytes[k];
        if b < 48 || b > 57 {
            proof {
                assert(bytes@.take(n as int) =~= bytes@);
                assert(!(48 <= bytes@[k as int] <= 57));
                assert(!all_digits(bytes@));
            }
            return None;
        }
        let d = (b - 48) as u64;
        let next: u64 = acc * 10 + d;
        proof {
            let t1 = bytes@.take(k + 1);
            assert(t1.drop_last() =~= bytes@.take(k as int));
            assert(t1.last() == bytes@[k as int]);
        }
        if next > u32::MAX as u64 {
            proof {
                assert(bytes@.take(n as int) =~= bytes@);
                if all_digits(bytes@) {
                    lemma_dec_value_monotone(bytes@, k + 1, n as int);
                }
            }
            return None;
        }
        acc = next;
        proof {
            assert forall|i: int| 0 <= i < k + 1 implies 48 <= #[trigger] bytes@.take(k + 1)[i]
                <= 57 by {
                if i < k {
                    assert(bytes@.take(k as int)[i] == bytes@.take(k + 1)[i]);
                }
            }
        }
        k = k + 1;
    }
    proof {
        assert(bytes@.take(n as int) =~= bytes@);
    }
    Some(acc as u32)
}

/// A digit prefix never exceeds the whole number it begins.
proof fn lemma_dec_value_monotone(b: Seq<u8>, i: int, j: int)
    requires
        0 <= i <= j <= b.len(),
        all_digits(b),
    ensures
        dec_value(b.take(i)) <= dec_value(b.take(j)),
    decreases j - i,
{
    if i < j {
        lemma_dec_value_monotone(b, i, j - 1);
        let t = b.take(j);
        assert(t.drop_last() =~= b.take(j - 1));
        assert(48 <= b[j - 1] <= 57);
        assert(dec_value(b.take(j - 1)) >= 0) by {
            lemma_dec_value_nonneg(b.take(j - 1));
        }
    }
}

/// Digit strings denote nonnegative values.
proof fn lemma_dec_value_nonneg(b: Seq<u8>)
    requires
        forall|i: int| 0 <= i < b.len() ==> 48 <= #[trigger] b[i] <= 57,
    ensures
        dec_value(b) >= 0,
    decreases b.len(),
{
    if b.len() > 0 {
        assert forall|i: int| 0 <= i < b.drop_last().len() implies 48
            <= #[trigger] b.drop_last()[i] <= 57 by {
            assert(b.drop_last()[i] == b[i]);
        }
        lemma_dec_value_nonneg(b.drop_last());
    }
}

/// The colon-joined `host:port` notation of an address.
pub open spec fn host_port_chars(host: Seq<char>, port: nat) -> Seq<char> {
    host + ":"@ + dec_chars(port)
}

/// Joins a host and a port into the address notation used as a node
/// identity.
pub fn make_address(host: &str, port: u32) -> (r: String)
    ensures
        r@ == host_port_chars(host@, port as nat),
{
    let mut s = String::from_str(host);
    s.append(":");
    let p = u64_to_string(port as u64);
    s.append(p.as_str());
    s
}

/// The advertised address notation: `sub.domain:port` when a subdomain
/// number is set, `domain:port` otherwise.
pub open spec fn advertised_chars(sub: nat, name: Seq<char>, port: nat) -> Seq<char> {
    if sub != 0 {
        dec_chars(sub) + "."@ + name + ":"@ + dec_chars(port)
    } else {
        name + ":"@ + dec_chars(port)
    }
}

/// This node's advertised address, from its configuration.
pub fn advertised_address(out_sub_name: u32, out_name: &str, out_port: u32) -> (r: String)
    ensures
        r@ == advertised_chars(out_sub_name as nat, out_name@, out_port as nat),
{
    if out_sub_name != 0 {
        let mut s = u64_to_string(out_sub_name as u64);
        s.append(".");
        s.append(out_name);
        s.append(":");
        let p = u64_to_string(out_port as u64);
        s.append(p.as_str());
        s
    } else {
        make_address(out_name, out_port)
    }
}

/// Relies on rand's `random_range`: a value within the inclusive range;
/// its distribution is not relied on.
#[verifier::external_body]
fn random_in_range(lo: u32, hi: u32) -> (r: u32)
    requires
        lo <= hi,
    ensures
        lo <= r <= hi,
{
    let mut rng = rand::rng();
    rand::Rng::random_range(&mut rng, lo..=hi)
}

/// The address notation of candidate peer number `choice` under the
/// configured domain template; its port is the base port plus the number.
pub open spec fn candidate_url_chars(choice: nat, sub: nat, name: Seq<char>) -> Seq<char> {
    if sub != 0 {
        dec_chars(choice) + "."@ + name + ":"@ + dec_chars(choice + 7000)
    } else {
        name + ":"@ + dec_chars(choice + 7000)
    }
}

/// A candidate peer address to dial: a random peer number within the
/// configured range, combined with the configured domain template.
pub fn random_client_url(peer_config: &PeerConfig) -> (r: String)
    requires
        peer_config.min_ref <= peer_config.max_ref,
    ensures
        exists|choice: nat| peer_config.min_ref <= choice <= peer_config.max_ref && r@
            == #[trigger] candidate_url_chars(choice, peer_config.out_sub_name as nat,
            peer_config.out_name@),
{
    let choice = random_in_range(peer_config.min_ref, peer_config.max_ref);
    let port: u64 = 7000u64 + choice as u64;
    if peer_config.out_sub_name != 0 {
        let mut s = u64_to_string(choice as u64);
        s.append(".");
        s.append(peer_config.out_name.as_str());
        s.append(":");
        let p = u64_to_string(port);
        s.append(p.as_str());
        proof {
            assert(s@ =~= candidate_url_chars(choice as nat, peer_config.out_sub_name as nat,
                peer_config.out_name@));
        }
        s
    } else {
        let mut s = String::from_str(peer_config.out_name.as_str());
        s.append(":");
        let p = u64_to_string(port);
        s.append(p.as_str());
        proof {
            assert(s@ =~= candidate_url_chars(choice as nat, peer_config.out_sub_name as nat,
                peer_config.out_name@));
        }
        s
    }
}

/// Whether a candidate address is worth dialing: not already connected,
/// not already picked this pass, and not this node's own advertised
/// address.
pub fn should_dial(candidate: &str, connected: &Vec<String>, picked: &Vec<String>,
    self_url: &str) -> (r: bool)
    ensures
        r == (!contains_str(connected@, candidate@) && !contains_str(picked@, candidate@)
            && candidate@ != self_url@),
{
    !vec_contains_str(connected, candidate) && !vec_contains_str(picked, candidate) && !str_eq(
        candidate, self_url)
}

} // verus!
