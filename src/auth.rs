//! Checking the signature that the messaging platform puts on the data it
//! hands to a web client.
use vstd::prelude::*;
use vstd::utf8::encode_utf8;
use vstd::string::StringSliceAdditionalSpecFns;

verus! {

/// The SHA-256 digest of `data`.
pub uninterp spec fn sha256_of(data: Seq<u8>) -> Seq<u8>;

/// The HMAC-SHA-256 tag of `msg` under `key`.
pub uninterp spec fn hmac_sha256_of(key: Seq<u8>, msg: Seq<u8>) -> Seq<u8>;

/// Relies on `sha2::Sha256::digest` (through `sha2::Digest`): the SHA-256
/// digest of the bytes, 32 bytes long.
#[verifier::external_body]
fn sha256(data: &[u8]) -> (r: Vec<u8>)
    ensures
        r@ == sha256_of(data@),
        r@.len() == 32,
{
    <sha2::Sha256 as sha2::Digest>::digest(data).to_vec()
}

/// Relies on `hmac::Mac::new_from_slice`, `update` and `verify_slice` for
/// `hmac::Hmac<sha2::Sha256>`: a key of any length is accepted, and the
/// check passes exactly when `tag` equals the tag of `msg` under `key`.
#[verifier::external_body]
fn hmac_sha256_matches(key: &[u8], msg: &[u8], tag: &[u8]) -> (r: bool)
    ensures
        r == (tag@ == hmac_sha256_of(key@, msg@)),
{
    match <hmac::Hmac<sha2::Sha256> as hmac::Mac>::new_from_slice(key) {
        Ok(mut mac) => {
            hmac::Mac::update(&mut mac, msg);
            hmac::Mac::verify_slice(mac, tag).is_ok()
        },
        Err(_) => false,
    }
}

/// The signature expected on `init_data` for the bot whose token is
/// `token`: the HMAC-SHA-256 of the data under the SHA-256 of the token.
pub open spec fn expected_signature(token: Seq<char>, init_data: Seq<char>) -> Seq<u8> {
    hmac_sha256_of(sha256_of(encode_utf8(token)), encode_utf8(init_data))
}

/// Accepts requests whose init data carries a valid signature for the bot.
#[derive(Debug)]
pub struct TelegramAuthFairing {
    pub bot_token: String,
}

impl TelegramAuthFairing {
    pub fn new(bot_token: &str) -> (r: TelegramAuthFairing)
        ensures
            r.bot_token@ == bot_token@,
    {
        TelegramAuthFairing { bot_token: bot_token.to_owned() }
    }

    /// The key that signatures for this bot are made with: the SHA-256 of
    /// its token.
    pub fn secret_key(&self) -> (r: Vec<u8>)
        ensures
            r@ == sha256_of(encode_utf8(self.bot_token@)),
            r@.len() == 32,
    {
        sha256(self.bot_token.as_str().as_bytes())
    }

    /// Whether `tag` is the signature of `init_data` for this bot.
    pub fn signature_matches(&self, init_data: &str, tag: &[u8]) -> (r: bool)
        ensures
            r == (tag@ == expected_signature(self.bot_token@, init_data@)),
    {
        let key = self.secret_key();
        hmac_sha256_matches(key.as_slice(), init_data.as_bytes(), tag)
    }

    /// Whether `hash`, as bytes, is the signature of `init_data` for this
    /// bot.
    pub fn verify_telegram_signature(&self, init_data: &str, hash: &str) -> (r: bool)
        ensures
            r == (encode_utf8(hash@) == expected_signature(self.bot_token@, init_data@)),
    {
        self.signature_matches(init_data, hash.as_bytes())
    }

    /// Whether a request is authorized, given its init data and signature
    /// headers; a missing header counts as empty.
    pub fn authorizes(&self, init_data: Option<&str>, hash: Option<&str>) -> (r: bool)
        ensures
            r == (encode_utf8(
                match hash {
                    Some(h) => h@,
                    None => Seq::empty(),
                },
            ) == expected_signature(
                self.bot_token@,
                match init_data {
                    Some(d) => d@,
                    None => Seq::empty(),
                },
            )),
    {
        let d = match init_data {
            Some(d) => d,
            None => "",
        };
        let h = match hash {
            Some(h) => h,
            None => "",
        };
        proof {
            reveal_strlit("");
        }
        self.verify_telegram_signature(d, h)
    }
}

} // verus!
