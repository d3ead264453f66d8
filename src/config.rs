//! The configuration the client core is built from.
use vstd::prelude::*;

use std::collections::HashMap;

verus! {

/// A configuration: general settings and the plugins, keyed by the command
/// prefix that invokes them.
pub struct Config {
    pub general: General,
    /// Command prefix to plugin executable path.
    pub commands: HashMap<String, String>,
}

/// General settings.
pub struct General {
    pub nick: String,
    pub server: String,
    pub port: u16,
    pub tls: bool,
    pub command_prefix: String,
    pub server_password: String,
    pub sasl_password: String,
    pub nickserv_password: String,
    pub channels: Vec<String>,
    pub invite_file: String,
}

pub fn default_port() -> (r: u16)
    ensures
        r == 6667,
{
    6667
}

pub fn default_prefix() -> (r: String)
    ensures
        r@ == ".!"@,
{
    ".!".to_owned()
}

pub fn default_tls() -> (r: bool)
    ensures
        !r,
{
    false
}

/// The decimal digits of `n`, most significant first.
pub open spec fn decimal(n: nat) -> Seq<char>
    decreases n,
{
    if n < 10 {
        seq![digit_char(n)]
    } else {
        decimal(n / 10).push(digit_char(n % 10))
    }
}

pub open spec fn digit_char(d: nat) -> char {
    ((d + 48) as u8) as char
}

/// Appends the decimal form of `n` to `s`.
fn push_decimal(s: &mut String, n: u16)
    ensures
        final(s)@ == old(s)@ + decimal(n as nat),
    decreases n,
{
    if n >= 10 {
        push_decimal(s, n / 10);
    }
    let d = (n % 10) as u8;
    crate::text::push_char(s, (d + 48) as char);
}

impl Config {
    /// `<server>:<port>`.
    pub fn connect_string(&self) -> (r: String)
        ensures
            r@ == self.general.server@ + seq![':'] + decimal(self.general.port as nat),
    {
        let mut r = self.general.server.clone();
        crate::text::push_char(&mut r, ':');
        push_decimal(&mut r, self.general.port);
        r
    }
}

} // verus!
