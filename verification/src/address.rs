//! The 160-bit address space and its distance metric.

use crate::hex::{
    decode_hex, decoded, digits_of, first_stray, hex_bytes, hex_text, is_hex_text,
    lemma_digit_pairs_decode, lemma_hex_text_decodes, to_hex, HexError,
};
use crate::numeric::{
    be_bytes, be_value, lemma_be_bytes_of_value, lemma_be_value_bound, lemma_be_value_of_bytes,
    lemma_numeric_bound, lemma_pow256_monotonic, lemma_xor_self, lemma_xor_symmetric,
    lemma_xor_zero_means_equal, limb_weight, pow256, xor, Numeric,
};
use crypto::digest::Digest;
use crypto::sha1::Sha1;
use num::bigint::{BigUint, RandBigInt};
use rand::StdRng;
use vstd::pervasive::unreached;
use vstd::prelude::*;

verus! {

/// The number of bits in an address.
pub const LENGTH: usize = 160;

/// The number of addresses: two to the power of [`LENGTH`].
pub open spec fn space_size() -> nat {
    0x1_0000_0000_0000_0000_0000_0000_0000_0000_0000_0000nat
}

/// The first twenty of the given bytes, with zeros after them where there are fewer.
pub open spec fn first_twenty(bytes: Seq<u8>) -> Seq<u8> {
    Seq::new(
        20,
        |i: int|
            if i < bytes.len() {
                bytes[i]
            } else {
                0u8
            },
    )
}

/// What `crypto`'s SHA-1 digest of a text is.
pub uninterp spec fn sha1_digest(content: Seq<char>) -> Seq<u8>;

/// Feeds a text to `crypto::sha1::Sha1` and reads the digest. The contract names the digest
/// after the text alone and claims its length: twenty bytes.
#[verifier::external_body]
fn sha1(content: &str) -> (digest: Vec<u8>)
    ensures
        digest@ == sha1_digest(content@),
        digest@.len() == 20,
{
    let mut hasher = Sha1::new();
    hasher.input_str(content);
    let mut digest = vec![0u8; 20];
    hasher.result(&mut digest);
    digest
}

/// The random number generator of `rand`, seeded by the operating system.
#[verifier::external_type_specification]
#[verifier::external_body]
pub struct ExStdRng(StdRng);

/// `rand::StdRng::new`: a generator seeded from the operating system, or nothing where the
/// system has no randomness to give.
#[verifier::external_body]
pub(crate) fn seeded_generator() -> Option<StdRng> {
    match StdRng::new() {
        Ok(generator) => Some(generator),
        Err(_) => None,
    }
}

/// `num`'s `gen_biguint_range` on bounds given as big-endian bytes. The contract claims what
/// its documentation promises: the number drawn is at least the lower bound and below the
/// upper one. It comes back as big-endian bytes.
#[verifier::external_body]
fn draw_between(generator: &mut StdRng, lower: &[u8], upper: &[u8]) -> (drawn: Vec<u8>)
    requires
        be_value(lower@) < be_value(upper@),
    ensures
        be_value(lower@) <= be_value(drawn@) < be_value(upper@),
{
    let lower = BigUint::from_bytes_be(lower);
    let upper = BigUint::from_bytes_be(upper);
    generator.gen_biguint_range(&lower, &upper).to_bytes_be()
}

/// A point of the address space: an unsigned number of 160 bits.
#[derive(Clone, Copy, Debug, PartialEq, Eq, Hash, Structural)]
pub struct Address {
    high: u32,
    low: u128,
}

impl View for Address {
    type V = nat;

    /// The address as a number.
    closed spec fn view(&self) -> nat {
        self.high as nat * limb_weight() + self.low as nat
    }
}

/// Anything that resides at an address.
pub trait Addressable {
    /// The address where `self` resides.
    spec fn residence(&self) -> Address;

    /// The address where `self` resides.
    fn address(&self) -> (address: Address)
        ensures
            address == self.residence(),
    ;
}

impl Address {
    /// The address with the given number; of a number too large, its lowest 160 bits.
    pub closed spec fn of(number: nat) -> Address {
        Address {
            high: ((number % space_size()) / limb_weight()) as u32,
            low: (number % limb_weight()) as u128,
        }
    }

    /// What [`Address::to_str`] writes: forty hexadecimal digits.
    pub open spec fn text(&self) -> Seq<char> {
        hex_text(be_bytes(self@, 20))
    }

    /// What [`Address::from_str`] reads from a text.
    pub open spec fn parsed(text: Seq<char>) -> Result<Address, HexError> {
        match decoded(text) {
            Ok(bytes) => Ok(Address::of(be_value(first_twenty(bytes)))),
            Err(error) => Err(error),
        }
    }

    /// Every address is a number below two to the power of 160, and is the address of that
    /// number.
    pub proof fn lemma_in_space(self)
        ensures
            self@ < space_size(),
            space_size() == pow256(20),
            Address::of(self@) == self,
    {
        reveal_with_fuel(pow256, 21);
    }

    /// The number of the address of a number is the number, cut to 160 bits.
    pub proof fn lemma_of(number: nat)
        ensures
            Address::of(number)@ == number % space_size(),
    {
        let cut = number % space_size();
        assert(cut / limb_weight() < 0x1_0000_0000);
        assert(cut % limb_weight() == number % limb_weight());
    }

    /// Addresses with the same number are the same address.
    pub proof fn lemma_by_number(a: Address, b: Address)
        requires
            a@ == b@,
        ensures
            a == b,
    {
    }

    /// Hashes `content` into an address: the SHA-1 digest of the text, read as a number.
    pub fn for_content(content: &str) -> (address: Address)
        ensures
            address@ == be_value(sha1_digest(content@)),
    {
        let digest = sha1(content);
        proof {
            assert(first_twenty(digest@) =~= digest@);
        }
        Address::from_bytes(digest.as_slice())
    }

    /// The address whose number the first twenty bytes spell, most significant first; bytes
    /// that are missing count as zero.
    pub fn from_bytes(bytes: &[u8]) -> (address: Address)
        ensures
            address@ == be_value(first_twenty(bytes@)),
            address == Address::of(be_value(first_twenty(bytes@))),
    {
        let mut padded: Vec<u8> = Vec::new();
        let mut i: usize = 0;
        while i < 20
            invariant
                i <= 20,
                padded@.len() == i,
                forall|j: int| 0 <= j < i ==> padded@[j] == first_twenty(bytes@)[j],
            decreases 20 - i,
        {
            let byte: u8 = if i < bytes.len() {
                bytes[i]
            } else {
                0
            };
            padded.push(byte);
            i += 1;
        }
        proof {
            assert(padded@ =~= first_twenty(bytes@));
            lemma_be_value_bound(padded@);
            lemma_pow256_monotonic(20, 24);
            reveal_with_fuel(pow256, 21);
        }
        match Numeric::from_bytes_be(padded.as_slice()) {
            Some(number) => {
                let address = Address::from_numeric(number);
                proof {
                    Address::lemma_of(number@);
                    address.lemma_in_space();
                }
                address
            },
            None => unreached(),
        }
    }

    /// The address with the given number; of a number too large, its lowest 160 bits.
    pub fn from_numeric(numeric: Numeric) -> (address: Address)
        ensures
            address@ == numeric@ % space_size(),
            address == Address::of(numeric@),
    {
        let high: u64 = numeric.high();
        let low: u128 = numeric.low();
        let address = Address { high: (high % 0x1_0000_0000) as u32, low };
        proof {
            let number = numeric@;
            let upper = number / limb_weight();
            assert(number == upper * limb_weight() + low);
            assert(number % space_size() == (upper % 0x1_0000_0000) * limb_weight() + low) by {
                let q = upper / 0x1_0000_0000;
                let r = upper % 0x1_0000_0000;
                assert(upper == q * 0x1_0000_0000 + r);
                assert(number == q * space_size() + (r * limb_weight() + low)) by (nonlinear_arith)
                    requires
                        number == upper * limb_weight() + low,
                        upper == q * 0x1_0000_0000 + r,
                        space_size() == 0x1_0000_0000 * limb_weight(),
                ;
                assert(r * limb_weight() + low < space_size());
                vstd::arithmetic::div_mod::lemma_fundamental_div_mod_converse(
                    number as int,
                    space_size() as int,
                    q as int,
                    (r * limb_weight() + low) as int,
                );
            }
            Address::lemma_of(number);
            Address::lemma_by_number(address, Address::of(number));
        }
        address
    }

    /// Reads an address from hexadecimal text: the first twenty bytes that the text decodes
    /// to, with zeros after them where it decodes to fewer. Fails where the text does not
    /// decode.
    pub fn from_str(string: &str) -> (outcome: Result<Address, HexError>)
        ensures
            outcome == Address::parsed(string@),
    {
        match decode_hex(string) {
            Ok(bytes) => Ok(Address::from_bytes(bytes.as_slice())),
            Err(error) => Err(error),
        }
    }

    /// The null address, which addresses nothing: the number zero.
    pub fn null() -> (address: Address)
        ensures
            address@ == 0,
    {
        Address { high: 0, low: 0 }
    }

    /// The address as a number.
    pub fn as_numeric(&self) -> (numeric: Numeric)
        ensures
            numeric@ == self@,
    {
        Numeric::new(self.high as u64, self.low)
    }

    /// The distance of `self` from `other` in the address space: the exclusive or of their
    /// numbers.
    pub fn distance_from(&self, other: &Self) -> (distance: Numeric)
        ensures
            distance@ == xor(self@, other@),
    {
        self.as_numeric().xor_with(&other.as_numeric())
    }

    /// The twenty bytes of the address, most significant first.
    pub fn to_bytes(&self) -> (bytes: Vec<u8>)
        ensures
            bytes@ == be_bytes(self@, 20),
            bytes@.len() == 20,
            be_value(bytes@) == self@,
    {
        proof {
            self.lemma_in_space();
        }
        self.as_numeric().to_bytes_be(20)
    }

    /// The address as forty lower-case hexadecimal digits.
    pub fn to_str(&self) -> (text: String)
        ensures
            text@ == self.text(),
    {
        let bytes = self.to_bytes();
        to_hex(bytes.as_slice())
    }

    /// Draws a random address whose number is at least `min` and below `max`, or nothing
    /// where the operating system has no randomness to seed the generator with. Of a number
    /// drawn beyond the address space the lowest 160 bits are taken.
    pub fn random(min: &Numeric, max: &Numeric) -> (drawn: Option<Address>)
        requires
            min@ < max@,
        ensures
            drawn matches Some(address) ==> exists|number: nat|
                min@ <= number < max@ && address == Address::of(number),
            drawn matches Some(address) ==> max@ <= space_size() ==> min@ <= address@ < max@,
    {
        match seeded_generator() {
            None => None,
            Some(mut generator) => Some(Address::random_with(&mut generator, min, max)),
        }
    }

    /// Draws with the generator a random address whose number is at least `min` and below
    /// `max`. Of a number drawn beyond the address space the lowest 160 bits are taken.
    pub fn random_with(generator: &mut StdRng, min: &Numeric, max: &Numeric) -> (address: Address)
        requires
            min@ < max@,
        ensures
            exists|number: nat| min@ <= number < max@ && address == Address::of(number),
            max@ <= space_size() ==> min@ <= address@ < max@,
    {
        proof {
            lemma_numeric_bound(*min);
            lemma_numeric_bound(*max);
        }
        let lower = min.to_bytes_be(24);
        let upper = max.to_bytes_be(24);
        let bytes = draw_between(generator, lower.as_slice(), upper.as_slice());
        match Numeric::from_bytes_be(bytes.as_slice()) {
            Some(number) => {
                let address = Address::from_numeric(number);
                proof {
                    Address::lemma_of(number@);
                    if max@ <= space_size() {
                        vstd::arithmetic::div_mod::lemma_small_mod(number@, space_size());
                    }
                }
                address
            },
            None => unreached(),
        }
    }
}

/// The distance between two addresses is the same in both directions.
pub proof fn lemma_distance_symmetric(a: Address, b: Address)
    ensures
        xor(a@, b@) == xor(b@, a@),
{
    lemma_xor_symmetric(a@, b@);
}

/// An address is at distance zero from itself.
pub proof fn lemma_distance_to_self(a: Address)
    ensures
        xor(a@, a@) == 0,
{
    lemma_xor_self(a@);
}

/// Two addresses at distance zero are the same address.
pub proof fn lemma_distance_zero(a: Address, b: Address)
    requires
        xor(a@, b@) == 0,
    ensures
        a == b,
{
    lemma_xor_zero_means_equal(a@, b@);
    Address::lemma_by_number(a, b);
}

/// A text is read as an address unless a character in it is neither a digit nor white space,
/// or its digits do not pair up.
pub proof fn lemma_when_text_is_read(text: Seq<char>)
    ensures
        Address::parsed(text) is Err <==> first_stray(text) is Some || digits_of(text).len() % 2 == 1,
{
}

/// A text of forty digits is read as the address that writes those digits, in lower case.
pub proof fn lemma_forty_digits_are_read(text: Seq<char>)
    requires
        is_hex_text(text),
        text.len() == 40,
    ensures
        Address::parsed(text) is Ok,
        Address::parsed(text)->Ok_0.text() == hex_text(hex_bytes(text)),
        Address::parsed(text)->Ok_0@ == be_value(hex_bytes(text)),
{
    let bytes = hex_bytes(text);
    lemma_digit_pairs_decode(text);
    assert(first_twenty(bytes) =~= bytes);
    lemma_be_value_bound(bytes);
    reveal_with_fuel(pow256, 21);
    Address::lemma_of(be_value(bytes));
    lemma_be_bytes_of_value(bytes);
}

/// Reading the text that an address writes gives the address back.
pub proof fn lemma_text_round_trip(a: Address)
    ensures
        Address::parsed(a.text()) == Ok::<Address, HexError>(a),
{
    a.lemma_in_space();
    let bytes = be_bytes(a@, 20);
    lemma_be_value_of_bytes(a@, 20);
    lemma_hex_text_decodes(bytes);
    assert(first_twenty(bytes) =~= bytes);
}

} // verus!
