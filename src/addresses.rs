//! Address values carried through storage: a human-readable one and a
//! canonical binary one.
use vstd::prelude::*;

verus! {

/// Binary data.
#[derive(Clone, Default, Debug, PartialEq)]
pub struct Binary(pub Vec<u8>);

impl Binary {
    pub fn as_slice(&self) -> (r: &[u8])
        ensures
            r@ == self.0@,
    {
        self.0.as_slice()
    }
}

/// A human-readable address.
#[derive(Clone, Default, Debug, PartialEq, Eq, Hash)]
pub struct HumanAddr(pub String);

impl HumanAddr {
    pub fn as_str(&self) -> (r: &str)
        ensures
            r@ == self.0@,
    {
        self.0.as_str()
    }

    /// The address as an owned string.
    pub fn to_string(&self) -> (r: String)
        ensures
            r@ == self.0@,
    {
        self.0.clone()
    }
}

impl From<&str> for HumanAddr {
    fn from(addr: &str) -> (r: HumanAddr)
        ensures
            r.0@ == addr@,
    {
        HumanAddr(addr.to_owned())
    }
}

impl vstd::std_specs::convert::FromSpecImpl<&str> for HumanAddr {
    open spec fn obeys_from_spec() -> bool {
        false
    }

    open spec fn from_spec(v: &str) -> HumanAddr {
        arbitrary()
    }
}

impl From<&HumanAddr> for HumanAddr {
    fn from(addr: &HumanAddr) -> (r: HumanAddr) {
        HumanAddr(addr.0.clone())
    }
}

impl vstd::std_specs::convert::FromSpecImpl<&HumanAddr> for HumanAddr {
    open spec fn obeys_from_spec() -> bool {
        true
    }

    open spec fn from_spec(v: &HumanAddr) -> HumanAddr {
        *v
    }
}

impl From<&&HumanAddr> for HumanAddr {
    fn from(addr: &&HumanAddr) -> (r: HumanAddr) {
        HumanAddr(addr.0.clone())
    }
}

impl vstd::std_specs::convert::FromSpecImpl<&&HumanAddr> for HumanAddr {
    open spec fn obeys_from_spec() -> bool {
        true
    }

    open spec fn from_spec(v: &&HumanAddr) -> HumanAddr {
        **v
    }
}

impl From<String> for HumanAddr {
    fn from(addr: String) -> (r: HumanAddr) {
        HumanAddr(addr)
    }
}

impl vstd::std_specs::convert::FromSpecImpl<String> for HumanAddr {
    open spec fn obeys_from_spec() -> bool {
        true
    }

    open spec fn from_spec(v: String) -> HumanAddr {
        HumanAddr(v)
    }
}

impl core::ops::Deref for HumanAddr {
    type Target = str;

    fn deref(&self) -> (r: &str)
        ensures
            r@ == self.0@,
    {
        self.as_str()
    }
}

impl PartialEq<str> for HumanAddr {
    fn eq(&self, other: &str) -> (r: bool) {
        let o = other.to_owned();
        self.0 == o
    }
}

impl vstd::std_specs::cmp::PartialEqSpecImpl<str> for HumanAddr {
    open spec fn obeys_eq_spec() -> bool {
        true
    }

    open spec fn eq_spec(&self, other: &str) -> bool {
        self.0@ == other@
    }
}

/// A canonical binary address.
#[derive(Clone, Default, Debug, PartialEq)]
pub struct CanonicalAddr(pub Binary);

impl CanonicalAddr {
    pub fn as_slice(&self) -> (r: &[u8])
        ensures
            r@ == self.0.0@,
    {
        self.0.as_slice()
    }

    /// The address in upper-case hexadecimal, two digits per byte.
    pub fn to_string(&self) -> (r: String)
        ensures
            r@ == hex_upper(self.0.0@),
    {
        let bytes = self.as_slice();
        let mut digits: Vec<u8> = Vec::new();
        let mut i: usize = 0;
        while i < bytes.len()
            invariant
                i <= bytes.len(),
                bytes@ == self.0.0@,
                digits@.len() == 2 * i,
                forall|j: int| 0 <= j < digits@.len() ==> (#[trigger] digits@[j]) < 128,
                digits@.map_values(|b: u8| b as char) == hex_upper(bytes@.take(i as int)),
            decreases bytes.len() - i,
        {
            let b = bytes[i];
            let ghost before = digits@;
            digits.push(hex_digit(b / 16));
            digits.push(hex_digit(b % 16));
            assert(bytes@.take(i + 1).drop_last() =~= bytes@.take(i as int));
            assert(digits@ =~= before.push(hex_digit_spec(b / 16)).push(hex_digit_spec(b % 16)));
            assert(digits@.map_values(|b: u8| b as char) =~= before.map_values(|b: u8| b as char)
                + seq![hex_digit_spec(b / 16) as char, hex_digit_spec(b % 16) as char]);
            i += 1;
        }
        assert(bytes@.take(i as int) =~= bytes@);
        ascii_string(digits)
    }
}

/// The ASCII code of an upper-case hexadecimal digit.
pub open spec fn hex_digit_spec(d: u8) -> u8 {
    if d < 10 {
        (48 + d) as u8
    } else {
        (55 + d) as u8
    }
}

/// The upper-case hexadecimal text of a byte string, two digits per byte.
pub open spec fn hex_upper(b: Seq<u8>) -> Seq<char>
    decreases b.len(),
{
    if b.len() == 0 {
        Seq::empty()
    } else {
        hex_upper(b.drop_last()) + seq![
            hex_digit_spec(b.last() / 16) as char,
            hex_digit_spec(b.last() % 16) as char,
        ]
    }
}

fn hex_digit(d: u8) -> (r: u8)
    requires
        d < 16,
    ensures
        r == hex_digit_spec(d),
        r < 128,
{
    if d < 10 {
        48 + d
    } else {
        55 + d
    }
}

/// Relies on `String::from_utf8`: ASCII bytes are valid UTF-8, and each
/// stands for the character of the same code.
#[verifier::external_body]
fn ascii_string(bytes: Vec<u8>) -> (r: String)
    requires
        forall|j: int| 0 <= j < bytes@.len() ==> (#[trigger] bytes@[j]) < 128,
    ensures
        r@ == bytes@.map_values(|b: u8| b as char),
{
    match String::from_utf8(bytes) {
        Ok(s) => s,
        Err(_) => String::new(),
    }
}

impl From<&[u8]> for CanonicalAddr {
    fn from(source: &[u8]) -> (r: CanonicalAddr)
        ensures
            r.0.0@ == source@,
    {
        CanonicalAddr(Binary(vstd::slice::slice_to_vec(source)))
    }
}

impl vstd::std_specs::convert::FromSpecImpl<&[u8]> for CanonicalAddr {
    open spec fn obeys_from_spec() -> bool {
        false
    }

    open spec fn from_spec(v: &[u8]) -> CanonicalAddr {
        arbitrary()
    }
}

impl From<Vec<u8>> for CanonicalAddr {
    fn from(source: Vec<u8>) -> (r: CanonicalAddr) {
        CanonicalAddr(Binary(source))
    }
}

impl vstd::std_specs::convert::FromSpecImpl<Vec<u8>> for CanonicalAddr {
    open spec fn obeys_from_spec() -> bool {
        true
    }

    open spec fn from_spec(v: Vec<u8>) -> CanonicalAddr {
        CanonicalAddr(Binary(v))
    }
}

impl From<CanonicalAddr> for Vec<u8> {
    fn from(source: CanonicalAddr) -> (r: Vec<u8>) {
        source.0.0
    }
}

impl vstd::std_specs::convert::FromSpecImpl<CanonicalAddr> for Vec<u8> {
    open spec fn obeys_from_spec() -> bool {
        true
    }

    open spec fn from_spec(v: CanonicalAddr) -> Vec<u8> {
        v.0.0
    }
}

impl core::ops::Deref for CanonicalAddr {
    type Target = [u8];

    fn deref(&self) -> (r: &[u8])
        ensures
            r@ == self.0.0@,
    {
        self.as_slice()
    }
}

} // verus!
