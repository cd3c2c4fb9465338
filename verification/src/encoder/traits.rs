use vstd::prelude::*;

use crate::encoder::custom::all_in_alphabet;
use crate::encoder::custom::encode_spec;
use crate::encoder::custom::first_invalid_at;
use crate::encoder::custom::overflow_at;
use crate::encoder::custom::str_value;
use crate::encoder::custom::valid_alphabet;
use crate::encoder::custom::CustomEncoder;
use crate::err::MixError;
use crate::idmixer::mix_spec;
use crate::idmixer::unmix_spec;
use crate::MAX_U56;
use crate::MAX_U64;

verus! {

/// Alphabet of the convenience traits: digits then lower-case letters.
const BASE36: &'static str = "0123456789abcdefghijklmnopqrstuvwxyz";

/// The base-36 alphabet the convenience traits encode with.
pub open spec fn base36() -> Seq<char> {
    "0123456789abcdefghijklmnopqrstuvwxyz"@
}

/// The base-36 alphabet is a valid alphabet.
pub proof fn lemma_base36_valid()
    ensures
        valid_alphabet(base36()),
{
    reveal_strlit("0123456789abcdefghijklmnopqrstuvwxyz");
    assert(base36().len() == 36);
    assert(base36().no_duplicates());
}

/// A codec between 64-bit values and strings over a fixed alphabet. Any
/// implementation behaves as positional notation in its alphabet: these
/// contracts pin both directions down completely.
pub trait EncoderDecoder: Sized {
    /// The ordered alphabet this codec writes numbers in.
    spec fn alphabet(&self) -> Seq<char>;

    /// A usable codec: its alphabet is valid.
    open spec fn wf(&self) -> bool {
        valid_alphabet(self.alphabet())
    }

    /// Writes `id` in the codec's alphabet, most significant digit
    /// first; zero is the single first character of the alphabet.
    fn encode(&self, id: u64) -> (r: Result<String, MixError>)
        requires
            self.wf(),
        ensures
            r matches Ok(s) && s@ == encode_spec(self.alphabet(), id),
    ;

    /// Reads `text` as a number in the codec's alphabet. Fails on the
    /// first character outside the alphabet, or with the first prefix
    /// whose value passes the 64-bit range.
    fn decode(&self, text: String) -> (r: Result<u64, MixError>)
        requires
            self.wf(),
        ensures
            all_in_alphabet(self.alphabet(), text@) && str_value(self.alphabet(), text@)
                <= MAX_U64 as int ==> r == Ok::<u64, MixError>(
                str_value(self.alphabet(), text@) as u64,
            ),
            all_in_alphabet(self.alphabet(), text@) && str_value(self.alphabet(), text@)
                > MAX_U64 as int ==> (exists|j: int|
                #[trigger] overflow_at(self.alphabet(), text@, j) && r == Err::<u64, MixError>(
                    MixError::Overflow {
                        value: str_value(self.alphabet(), text@.take(j)) as u128,
                        limit: MAX_U64,
                    },
                )),
            !all_in_alphabet(self.alphabet(), text@) ==> (exists|i: int|
                #[trigger] first_invalid_at(self.alphabet(), text@, i) && r == Err::<u64, MixError>(
                    MixError::InvalidCharacter { c: text@[i] },
                )),
    ;
}

/// Method-call sugar for mixing an integer and rendering it in the
/// built-in base-36 alphabet.
pub trait IntEncoder {
    /// The identifier this value stands for.
    spec fn as_id(&self) -> u64;

    /// Scrambles the identifier under `password` with a fresh nonce.
    fn mix(&self, password: u64) -> (r: Result<u64, MixError>)
        ensures
            self.as_id() <= MAX_U56 ==> (r matches Ok(v) && exists|n: u8|
                n < 32 && v == #[trigger] mix_spec(password, self.as_id(), n)),
            self.as_id() > MAX_U56 ==> r == Err::<u64, MixError>(
                MixError::Domain { id: self.as_id(), limit: MAX_U56 },
            ),
    ;

    /// Recovers an identifier from its mixed form under `password`.
    fn unmix(&self, password: u64) -> (r: Result<u64, MixError>)
        ensures
            r == unmix_spec(password, self.as_id()),
    ;

    /// Scrambles the identifier and writes it in base 36.
    fn encode(&self, password: u64) -> (r: Result<String, MixError>)
        ensures
            self.as_id() <= MAX_U56 ==> (r matches Ok(s) && exists|n: u8|
                n < 32 && s@ == encode_spec(base36(), #[trigger] mix_spec(
                    password,
                    self.as_id(),
                    n,
                ))),
            self.as_id() > MAX_U56 ==> r == Err::<String, MixError>(
                MixError::Domain { id: self.as_id(), limit: MAX_U56 },
            ),
    ;
}

/// Method-call sugar for reading a base-36 string back into the
/// identifier it encodes.
pub trait StrDecoder {
    /// The characters this value holds.
    spec fn as_text(&self) -> Seq<char>;

    /// Reads the base-36 string and unmixes it under `password`.
    fn decode(&self, password: u64) -> (r: Result<u64, MixError>)
        ensures
            all_in_alphabet(base36(), self.as_text()) && str_value(base36(), self.as_text())
                <= MAX_U64 as int ==> r == unmix_spec(
                password,
                str_value(base36(), self.as_text()) as u64,
            ),
            all_in_alphabet(base36(), self.as_text()) && str_value(base36(), self.as_text())
                > MAX_U64 as int ==> (exists|j: int|
                #[trigger] overflow_at(base36(), self.as_text(), j) && r == Err::<u64, MixError>(
                    MixError::Overflow {
                        value: str_value(base36(), self.as_text().take(j)) as u128,
                        limit: MAX_U64,
                    },
                )),
            !all_in_alphabet(base36(), self.as_text()) ==> (exists|i: int|
                #[trigger] first_invalid_at(base36(), self.as_text(), i) && r == Err::<
                    u64,
                    MixError,
                >(MixError::InvalidCharacter { c: self.as_text()[i] })),
    ;
}

impl IntEncoder for u64 {
    open spec fn as_id(&self) -> u64 {
        *self
    }

    fn mix(&self, password: u64) -> (r: Result<u64, MixError>) {
        crate::idmixer::mix(password, *self)
    }

    fn unmix(&self, password: u64) -> (r: Result<u64, MixError>) {
        crate::idmixer::unmix(password, *self)
    }

    fn encode(&self, password: u64) -> (r: Result<String, MixError>) {
        proof {
            lemma_base36_valid();
        }
        let encoder = match CustomEncoder::new(BASE36) {
            Ok(enc) => enc,
            Err(e) => {
                return Err(e);
            },
        };
        crate::idmixer::encode(password, *self, &encoder)
    }
}

impl StrDecoder for &str {
    open spec fn as_text(&self) -> Seq<char> {
        self@
    }

    fn decode(&self, password: u64) -> (r: Result<u64, MixError>) {
        proof {
            lemma_base36_valid();
        }
        let encoder = match CustomEncoder::new(BASE36) {
            Ok(enc) => enc,
            Err(e) => {
                return Err(e);
            },
        };
        crate::idmixer::decode(password, self, &encoder)
    }
}

impl StrDecoder for String {
    open spec fn as_text(&self) -> Seq<char> {
        self@
    }

    fn decode(&self, password: u64) -> (r: Result<u64, MixError>) {
        proof {
            lemma_base36_valid();
        }
        let encoder = match CustomEncoder::new(BASE36) {
            Ok(enc) => enc,
            Err(e) => {
                return Err(e);
            },
        };
        crate::idmixer::decode(password, self.as_str(), &encoder)
    }
}

} // verus!
