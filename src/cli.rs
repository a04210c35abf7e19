use vstd::prelude::*;
use vstd::utf8::encode_utf8;
use crate::codec::{base58_decode, base58_encode, decode_string, encode_bytes, is_base58};

verus! {

/// std's I/O error, carried through as it is.
#[verifier::external_type_specification]
#[verifier::external_body]
pub struct ExIoError(std::io::Error);

/// The top-level commands.
pub enum Commands {
    Bs58(Bs58Commands),
}

/// The base58 commands.
pub enum Bs58Commands {
    Decode(DecodeArgs),
    Encode(EncodeArgs),
}

/// Arguments of `bs58 decode`: the base58 text to decode.
#[derive(Debug, Clone)]
pub struct DecodeArgs {
    pub input: String,
}

/// Arguments of `bs58 encode`: the text whose UTF-8 bytes are encoded.
#[derive(Debug, Clone)]
pub struct EncodeArgs {
    pub input: String,
}

/// Errors reported by the command-line commands.
#[derive(Debug)]
pub enum CliError {
    /// The input of `decode` is not valid base58.
    BS58Error,
    /// An I/O failure around the commands, passed through.
    IoError(std::io::Error),
}

/// The bytes that `bs58 decode` reports for its argument.
pub fn decode(args: &DecodeArgs) -> (r: Result<Vec<u8>, CliError>)
    ensures
        r is Ok <==> is_base58(args.input@),
        r matches Ok(v) ==> v@ == base58_decode(args.input@),
        r matches Err(e) ==> e is BS58Error,
{
    match decode_string(args.input.as_str()) {
        Ok(v) => Ok(v),
        Err(_) => Err(CliError::BS58Error),
    }
}

/// The text that `bs58 encode` reports for its argument: the encoding of the
/// argument's UTF-8 bytes.
pub fn encode(args: &EncodeArgs) -> (r: String)
    ensures
        r@ == base58_encode(encode_utf8(args.input@)),
{
    encode_bytes(args.input.as_str().as_bytes())
}

} // verus!
