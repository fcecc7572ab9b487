//! Values that are fixed when the application starts: the address on which
//! it listens and the base URL under which it is reached.

use actix_web::cookie::Key;
use vstd::prelude::*;
use vstd::string::StringExecFns;

verus! {

/// The public base URL under which the application is reachable.
pub struct ApplicationBaseUrl(pub String);

impl View for ApplicationBaseUrl {
    type V = Seq<char>;

    open spec fn view(&self) -> Seq<char> {
        self.0@
    }
}

/// The character of a decimal digit.
pub open spec fn digit_char(digit: nat) -> char {
    if digit == 0 {
        '0'
    } else if digit == 1 {
        '1'
    } else if digit == 2 {
        '2'
    } else if digit == 3 {
        '3'
    } else if digit == 4 {
        '4'
    } else if digit == 5 {
        '5'
    } else if digit == 6 {
        '6'
    } else if digit == 7 {
        '7'
    } else if digit == 8 {
        '8'
    } else {
        '9'
    }
}

/// The number in decimal digits, without leading zeros.
pub open spec fn decimal(n: nat) -> Seq<char>
    decreases n,
{
    if n < 10 {
        seq![digit_char(n)]
    } else {
        decimal(n / 10).push(digit_char(n % 10))
    }
}

/// The address `host:port` as it is written for a listener.
pub open spec fn address_of(host: Seq<char>, port: u16) -> Seq<char> {
    host + seq![':'] + decimal(port as nat)
}

fn digit_str(digit: u16) -> (text: &'static str)
    requires
        digit < 10,
    ensures
        text@ == seq![digit_char(digit as nat)],
{
    proof {
        reveal_strlit("0");
        reveal_strlit("1");
        reveal_strlit("2");
        reveal_strlit("3");
        reveal_strlit("4");
        reveal_strlit("5");
        reveal_strlit("6");
        reveal_strlit("7");
        reveal_strlit("8");
        reveal_strlit("9");
    }
    let text = if digit == 0 {
        "0"
    } else if digit == 1 {
        "1"
    } else if digit == 2 {
        "2"
    } else if digit == 3 {
        "3"
    } else if digit == 4 {
        "4"
    } else if digit == 5 {
        "5"
    } else if digit == 6 {
        "6"
    } else if digit == 7 {
        "7"
    } else if digit == 8 {
        "8"
    } else {
        "9"
    };
    assert(text@ =~= seq![digit_char(digit as nat)]);
    text
}

fn push_decimal(out: &mut String, n: u16)
    ensures
        final(out)@ == old(out)@ + decimal(n as nat),
    decreases n,
{
    if n >= 10 {
        push_decimal(out, n / 10);
    }
    out.append(digit_str(n % 10));
    assert(out@ =~= old(out)@ + decimal(n as nat));
}

/// Writes the address on which the application listens: the host, a colon,
/// and the port in decimal digits.
pub fn socket_address(host: &str, port: u16) -> (address: String)
    ensures
        address@ == address_of(host@, port),
{
    let mut address = host.to_owned();
    proof {
        reveal_strlit(":");
    }
    address.append(":");
    assert(address@ =~= host@ + seq![':']);
    push_decimal(&mut address, port);
    address
}

/// Declares `actix_web::cookie::Key`, the key that signs and encrypts the
/// cookies of the application. A key is carried through as it is: nothing is
/// known here of what it holds.
#[verifier::external_type_specification]
#[verifier::external_body]
pub struct ExKey(actix_web::cookie::Key);

/// The number of bytes that a cookie key is made of. Shorter key material
/// is refused.
pub const KEY_MATERIAL_LEN: usize = 64;

/// Calls `actix_web::cookie::Key::from`, which copies the first 64 bytes of
/// the material into a new key and panics where the material is shorter:
/// such material is left out here. Nothing is claimed of the key.
#[verifier::external_body]
fn key_from(material: &[u8]) -> (key: Key)
    requires
        material@.len() >= KEY_MATERIAL_LEN,
{
    Key::from(material)
}

/// The cookie key made of the secret's bytes, or `None` where the secret
/// has fewer bytes than a key needs.
pub fn cookie_key(secret: &[u8]) -> (key: Option<Key>)
    ensures
        key is Some <==> secret@.len() >= KEY_MATERIAL_LEN,
{
    if secret.len() >= KEY_MATERIAL_LEN {
        Some(key_from(secret))
    } else {
        None
    }
}

impl ApplicationBaseUrl {
    /// The base URL as text.
    pub fn as_str(&self) -> (url: &str)
        ensures
            url@ == self@,
    {
        self.0.as_str()
    }
}

} // verus!
