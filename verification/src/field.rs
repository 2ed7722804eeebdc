//! Elements of the BN254 scalar field, held as four 64-bit limbs.
//!
//! Every `Field` value is a member of the field: the number it stands for is
//! below the field's order. Parsing, printing and hashing are done by `ruint`
//! and `semaphore-rs`; what this module believes of them is stated on the
//! private functions that call them.

use vstd::prelude::*;
use vstd::std_specs::cmp::PartialEqSpecImpl;
use vstd::string::StringExecFns;

verus! {

/// The order of the BN254 scalar field.
pub open spec fn modulus() -> nat {
    21888242871839275222246405745257275088548364400416034343698204186575808495617nat
}

/// The number that four limbs stand for, least significant limb first.
pub open spec fn limbs_value(limbs: [u64; 4]) -> nat {
    (limbs[0] + limbs[1] * 0x1_0000_0000_0000_0000int + limbs[2]
        * 0x1_0000_0000_0000_0000_0000_0000_0000_0000int + limbs[3]
        * 0x1_0000_0000_0000_0000_0000_0000_0000_0000_0000_0000_0000_0000int) as nat
}

/// The character of a decimal digit.
pub open spec fn digit_char(digit: nat) -> char {
    seq!['0', '1', '2', '3', '4', '5', '6', '7', '8', '9'][digit as int]
}

/// A number in decimal, without leading zeros; zero is "0".
pub open spec fn decimal_text(n: nat) -> Seq<char>
    decreases n,
{
    if n < 10 {
        seq![digit_char(n)]
    } else {
        decimal_text(n / 10).push(digit_char(n % 10))
    }
}

/// What `ruint` reads a text as: the number, or `None` where it rejects the
/// text or the number needs more than 256 bits.
pub uninterp spec fn parse_uint256(text: Seq<char>) -> Option<nat>;

/// The number that `semaphore-rs` hashes a byte string to.
pub uninterp spec fn hash_to_field_value(data: Seq<u8>) -> nat;

/// The field element that a text stands for, if it stands for one: the
/// text must read as a number below the field's order, and must be that
/// number in decimal, without leading zeros or anything else.
pub open spec fn parse_field_value(text: Seq<char>) -> Option<nat> {
    match parse_uint256(text) {
        Some(n) => if n < modulus() && decimal_text(n) == text {
            Some(n)
        } else {
            None
        },
        None => None,
    }
}

/// Two limb arrays that stand for the same number are the same array.
pub proof fn lemma_limbs_value_injective(a: [u64; 4], b: [u64; 4])
    requires
        limbs_value(a) == limbs_value(b),
    ensures
        a == b,
{
    assert(a[0] == b[0] && a[1] == b[1] && a[2] == b[2] && a[3] == b[3]);
    assert(a@ =~= b@);
}

/// An element of the BN254 scalar field.
#[derive(Copy, Debug)]
pub struct Field {
    limbs: [u64; 4],
}

impl Clone for Field {
    fn clone(&self) -> (r: Self)
        ensures
            r == *self,
    {
        *self
    }
}

impl View for Field {
    type V = nat;

    closed spec fn view(&self) -> nat {
        limbs_value(self.limbs)
    }
}

impl PartialEq for Field {
    fn eq(&self, other: &Self) -> (r: bool) {
        proof {
            if self@ == other@ {
                lemma_limbs_value_injective(self.limbs, other.limbs);
            }
        }
        self.limbs[0] == other.limbs[0] && self.limbs[1] == other.limbs[1] && self.limbs[2]
            == other.limbs[2] && self.limbs[3] == other.limbs[3]
    }
}

impl Eq for Field {

}

impl PartialEqSpecImpl for Field {
    open spec fn obeys_eq_spec() -> bool {
        true
    }

    open spec fn eq_spec(&self, other: &Self) -> bool {
        self@ == other@
    }
}

/// Calls `ruint`'s `FromStr` for `Uint<256, 4>` and hands out the limbs of
/// what it read. The parser reads decimal digits, and also takes `0x`, `0o`
/// and `0b` prefixes, underscores and the empty text; the contract names its
/// result and says no more of it.
#[verifier::external_body]
fn uint256_from_str(text: &str) -> (r: Option<[u64; 4]>)
    ensures
        match r {
            Some(limbs) => parse_uint256(text@) == Some(limbs_value(limbs)),
            None => parse_uint256(text@) is None,
        },
{
    match text.parse::<ruint::Uint<256, 4>>() {
        Ok(n) => Some(n.into_limbs()),
        Err(_) => None,
    }
}

/// Calls `ruint`'s `Display` for `Uint<256, 4>`, which prints the number in
/// decimal without leading zeros. What it prints holds decimal digits only,
/// and `ruint`'s parser reads such a text back as the number.
#[verifier::external_body]
fn uint256_to_string(limbs: [u64; 4]) -> (text: String)
    ensures
        text@ == decimal_text(limbs_value(limbs)),
        parse_uint256(text@) == Some(limbs_value(limbs)),
{
    ruint::Uint::<256, 4>::from_limbs(limbs).to_string()
}

/// Calls `semaphore_rs::hash_to_field`: Keccak-256 of the data, read as a
/// big-endian number of 256 bits and shifted right by eight bits. So the
/// highest eight bits of the result are zero: its highest limb is below
/// 2^56, and the result is below 2^248.
#[verifier::external_body]
fn keccak_field_limbs(data: &[u8]) -> (limbs: [u64; 4])
    ensures
        limbs_value(limbs) == hash_to_field_value(data@),
        limbs[3] < 0x0100_0000_0000_0000u64,
{
    semaphore_rs::hash_to_field(data).into_limbs()
}

/// Whether four limbs stand for a number below the field's order.
fn limbs_in_field(limbs: &[u64; 4]) -> (r: bool)
    ensures
        r == (limbs_value(*limbs) < modulus()),
{
    if limbs[3] != 0x30644e72e131a029 {
        limbs[3] < 0x30644e72e131a029
    } else if limbs[2] != 0xb85045b68181585d {
        limbs[2] < 0xb85045b68181585d
    } else if limbs[1] != 0x2833e84879b97091 {
        limbs[1] < 0x2833e84879b97091
    } else {
        limbs[0] < 0x43e1f593f0000001
    }
}

impl Field {
    #[verifier::type_invariant]
    spec fn in_field(self) -> bool {
        limbs_value(self.limbs) < modulus()
    }

    /// The element that stands for `value`, for a value below the field's
    /// order.
    pub closed spec fn of_value(value: nat) -> Field {
        choose|f: Field| f@ == value
    }

    /// The element that stands for a value below the field's order has that
    /// value.
    pub proof fn lemma_of_value_view(value: nat)
        requires
            value < modulus(),
        ensures
            Field::of_value(value)@ == value,
    {
        let limbs: [u64; 4] = [
            (value % 0x1_0000_0000_0000_0000) as u64,
            ((value / 0x1_0000_0000_0000_0000) % 0x1_0000_0000_0000_0000) as u64,
            ((value / 0x1_0000_0000_0000_0000_0000_0000_0000_0000nat) % 0x1_0000_0000_0000_0000)
                as u64,
            (value / 0x1_0000_0000_0000_0000_0000_0000_0000_0000_0000_0000_0000_0000nat) as u64,
        ];
        let witness = Field { limbs };
        assert(witness@ == value);
    }

    /// An element is the element that stands for its value.
    pub proof fn lemma_of_value(f: Field)
        ensures
            Field::of_value(f@) == f,
    {
        Field::lemma_view_injective(Field::of_value(f@), f);
    }

    /// Two elements that stand for the same number are the same element.
    pub proof fn lemma_view_injective(a: Field, b: Field)
        requires
            a@ == b@,
        ensures
            a == b,
    {
        lemma_limbs_value_injective(a.limbs, b.limbs);
    }

    /// The element that a 64-bit number stands for.
    pub fn from_u64(value: u64) -> (r: Field)
        ensures
            r@ == value,
    {
        Field { limbs: [value, 0, 0, 0] }
    }

    /// The element with the given limbs, least significant first, or `None`
    /// where they stand for a number that is not below the field's order.
    pub fn from_limbs(limbs: [u64; 4]) -> (r: Option<Field>)
        ensures
            match r {
                Some(f) => f@ == limbs_value(limbs) && limbs_value(limbs) < modulus(),
                None => limbs_value(limbs) >= modulus(),
            },
    {
        if limbs_in_field(&limbs) {
            Some(Field { limbs })
        } else {
            None
        }
    }

    /// The element with the given limbs, which stand for a number below the
    /// field's order.
    pub(crate) fn from_reduced_limbs(limbs: [u64; 4]) -> (r: Field)
        requires
            limbs_value(limbs) < modulus(),
        ensures
            r@ == limbs_value(limbs),
    {
        Field { limbs }
    }

    /// The limbs of the element, least significant first. They stand for a
    /// number below the field's order.
    pub fn to_limbs(&self) -> (limbs: [u64; 4])
        ensures
            limbs_value(limbs) == self@,
            limbs_value(limbs) < modulus(),
    {
        proof {
            use_type_invariant(self);
        }
        self.limbs
    }

    /// Reads an element from its decimal text. A number that is not below
    /// the field's order is no element, and a text that is not the number
    /// as [`Field::to_string`] writes it stands for none.
    pub fn parse(text: &str) -> (r: Option<Field>)
        ensures
            match r {
                Some(f) => parse_field_value(text@) == Some(f@),
                None => parse_field_value(text@) is None,
            },
    {
        let limbs = match uint256_from_str(text) {
            Some(limbs) => limbs,
            None => {
                return None;
            },
        };
        let field = match Field::from_limbs(limbs) {
            Some(field) => field,
            None => {
                return None;
            },
        };
        if field.to_string() == String::from_str(text) {
            Some(field)
        } else {
            None
        }
    }

    /// The element in decimal, which [`Field::parse`] reads back as the
    /// element.
    pub fn to_string(&self) -> (text: String)
        ensures
            text@ == decimal_text(self@),
            parse_field_value(text@) == Some(self@),
    {
        proof {
            use_type_invariant(self);
        }
        uint256_to_string(self.limbs)
    }
}

/// The field elements that a list of texts stands for, if each text stands
/// for one.
pub open spec fn parse_fields(texts: Seq<String>) -> Option<Seq<Field>> {
    if forall|i: int| 0 <= i < texts.len() ==> (#[trigger] parse_field_value(texts[i]@)) is Some {
        Some(
            Seq::new(
                texts.len(),
                |i: int| Field::of_value(parse_field_value(texts[i]@).unwrap()),
            ),
        )
    } else {
        None
    }
}

/// Each field element in decimal. The texts read back as the elements.
pub fn fields_to_strings(fields: &[Field]) -> (texts: Vec<String>)
    ensures
        texts@.len() == fields@.len(),
        forall|i: int| 0 <= i < fields@.len() ==> #[trigger] texts@[i]@ == decimal_text(fields@[i]@),
        parse_fields(texts@) == Some(fields@),
{
    let mut texts: Vec<String> = Vec::with_capacity(fields.len());
    let mut at: usize = 0;
    while at < fields.len()
        invariant
            at <= fields@.len(),
            texts@.len() == at,
            forall|i: int| 0 <= i < at ==> #[trigger] texts@[i]@ == decimal_text(fields@[i]@),
            forall|i: int|
                0 <= i < at ==> #[trigger] parse_field_value(texts@[i]@) == Some(fields@[i]@),
        decreases fields@.len() - at,
    {
        texts.push(fields[at].to_string());
        at = at + 1;
    }
    proof {
        assert forall|i: int| 0 <= i < fields@.len() implies Field::of_value(
            parse_field_value(texts@[i]@).unwrap(),
        ) == fields@[i] by {
            Field::lemma_of_value(fields@[i]);
        }
        assert(parse_fields(texts@).unwrap() =~= fields@);
    }
    texts
}

/// Reads a field element from each text, or `None` where one of the texts
/// stands for none.
pub fn strings_to_fields(texts: &Vec<String>) -> (r: Option<Vec<Field>>)
    ensures
        match r {
            Some(fields) => parse_fields(texts@) == Some(fields@),
            None => parse_fields(texts@) is None,
        },
{
    let mut fields: Vec<Field> = Vec::with_capacity(texts.len());
    let mut at: usize = 0;
    while at < texts.len()
        invariant
            at <= texts@.len(),
            fields@.len() == at,
            forall|i: int| 0 <= i < at ==> (#[trigger] parse_field_value(texts@[i]@)) is Some,
            forall|i: int|
                0 <= i < at ==> #[trigger] fields@[i] == Field::of_value(
                    parse_field_value(texts@[i]@).unwrap(),
                ),
        decreases texts@.len() - at,
    {
        match Field::parse(texts[at].as_str()) {
            Some(field) => {
                proof {
                    Field::lemma_of_value(field);
                }
                fields.push(field);
            },
            None => {
                return None;
            },
        }
        at = at + 1;
    }
    proof {
        assert(fields@ =~= parse_fields(texts@).unwrap());
    }
    Some(fields)
}

/// Hash arbitrary data to a field element.
pub fn hash_to_field(data: &[u8]) -> (r: Field)
    ensures
        r@ == hash_to_field_value(data@),
{
    let limbs = keccak_field_limbs(data);
    Field { limbs }
}

} // verus!
