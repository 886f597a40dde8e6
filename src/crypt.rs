//! Applying a cipher to a message for display.
use vstd::prelude::*;
use crate::text::trimmed_end;

verus! {

/// A cipher, as the command line uses it.
pub trait CliCipher {
    fn encrypt(&self, msg: &str) -> String;

    fn decrypt(&self, msg: &str) -> String;
}

/// Relies on `str::trim_end`: the result is `s` without trailing white space, white space
/// being the characters of the Unicode `White_Space` property.
#[verifier::external_body]
fn trim_end(s: &str) -> (r: &str)
    ensures
        r@ == trimmed_end(s@),
{
    s.trim_end()
}

/// The output line for a cipher's result: the result without trailing white space.
pub fn output_line(result: &str) -> (r: String)
    ensures
        r@ == trimmed_end(result@),
{
    trim_end(result).to_owned()
}

/// Encrypts `text` with `cipher`, giving the line to show: the cipher's result without
/// its trailing white space.
pub fn encrypt<C: CliCipher>(cipher: &C, text: &str) -> (r: String)
    ensures
        exists|out: Seq<char>| r@ == trimmed_end(out),
{
    let out = cipher.encrypt(text);
    output_line(out.as_str())
}

/// Decrypts `text` with `cipher`, giving the line to show: the cipher's result without
/// its trailing white space.
pub fn decrypt<C: CliCipher>(cipher: &C, text: &str) -> (r: String)
    ensures
        exists|out: Seq<char>| r@ == trimmed_end(out),
{
    let out = cipher.decrypt(text);
    output_line(out.as_str())
}

} // verus!
