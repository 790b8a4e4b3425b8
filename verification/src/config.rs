//! Resolved run configuration.
//!
//! The orchestrator consumes a fully resolved [`Config`]: server address,
//! user name, authentication material and the command to run. Loading and
//! prompting happen outside; this module only assembles the value from
//! plain resolved parts.

use vstd::prelude::*;

verus! {

/// How the session authenticates. A closed set today, made to grow.
#[derive(Debug)]
pub enum Auth {
    Password(String),
}

/// Everything one run needs, resolved and validated up front.
#[derive(Debug)]
pub struct Config {
    pub server_addr: String,
    pub username: String,
    pub auth: Auth,
    pub command: String,
}

/// The decimal digits of `n`, most significant first.
pub open spec fn dec_digits(n: nat) -> Seq<char>
    decreases n,
{
    if n < 10 {
        seq![digit_char(n)]
    } else {
        dec_digits(n / 10).push(digit_char(n % 10))
    }
}

/// The character for one decimal digit.
pub open spec fn digit_char(d: nat) -> char {
    if d == 0 {
        '0'
    } else if d == 1 {
        '1'
    } else if d == 2 {
        '2'
    } else if d == 3 {
        '3'
    } else if d == 4 {
        '4'
    } else if d == 5 {
        '5'
    } else if d == 6 {
        '6'
    } else if d == 7 {
        '7'
    } else if d == 8 {
        '8'
    } else {
        '9'
    }
}

/// The one-character string for a digit.
fn digit_str(d: u16) -> (s: &'static str)
    requires
        d < 10,
    ensures
        s@ == seq![digit_char(d as nat)],
{
    let s: &'static str = match d {
        0 => "0",
        1 => "1",
        2 => "2",
        3 => "3",
        4 => "4",
        5 => "5",
        6 => "6",
        7 => "7",
        8 => "8",
        _ => "9",
    };
    proof {
        reveal_strlit("0");
        reveal_strlit("1");
        reveal_strlit("2");
        reveal_strlit("3");
        reveal_strlit("4");
        reveal_strlit("5");
        reveal_strlit("6");
        reveal_strlit("7");
        reveal_strlit("8");
        reveal_strlit("9");
        assert(s@ =~= seq![digit_char(d as nat)]);
    }
    s
}

/// The decimal form of a port number.
pub fn u16_to_string(n: u16) -> (s: String)
    ensures
        s@ == dec_digits(n as nat),
    decreases n,
{
    if n < 10 {
        String::from_str(digit_str(n))
    } else {
        let mut s = u16_to_string(n / 10);
        s.append(digit_str(n % 10));
        proof {
            assert(s@ =~= dec_digits((n / 10) as nat).push(digit_char((n % 10) as nat)));
        }
        s
    }
}

/// `host:port`, as the transport expects it.
pub fn format_server_addr(addr: &str, port: u16) -> (r: String)
    ensures
        r@ == addr@ + ":"@ + dec_digits(port as nat),
{
    let mut r = String::from_str(addr);
    r.append(":");
    let digits = u16_to_string(port);
    r.append(digits.as_str());
    r
}

/// Assemble the configuration from resolved parts: the server address is
/// `addr:port`, and the secret ends up as password authentication.
pub fn resolve_config(addr: &str, port: u16, username: String, password: String, command: String) -> (c:
    Config)
    ensures
        c.server_addr@ == addr@ + ":"@ + dec_digits(port as nat),
        c.username == username,
        c.auth == Auth::Password(password),
        c.command == command,
{
    Config {
        server_addr: format_server_addr(addr, port),
        username,
        auth: Auth::Password(password),
        command,
    }
}

/// The scaffold written to a fresh configuration file, for the user to
/// fill in.
pub fn default_config_contents() -> (r: &'static str)
    ensures
        r@.len() > 0,
{
    let r = "[server]\naddr = \"example.com\"\nport = 22\nuser = \"username\"\n\n[auth]\nauth_type = \"password\"\n# password = \"...\"\n";
    proof {
        reveal_strlit(
            "[server]\naddr = \"example.com\"\nport = 22\nuser = \"username\"\n\n[auth]\nauth_type = \"password\"\n# password = \"...\"\n",
        );
    }
    r
}

/// Where the configuration file lives under a home directory.
pub fn config_path_in(home: &str) -> (r: String)
    ensures
        r@ == home@ + "/.config/csecmd/config.toml"@,
{
    let mut r = String::from_str(home);
    r.append("/.config/csecmd/config.toml");
    r
}

} // verus!
