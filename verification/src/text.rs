//! Symbol-level access to UTF-8 text.
//!
//! A grammar's symbols are `char`s, while the text that holds them is UTF-8.
//! The functions here step through a string slice one symbol at a time in
//! constant time per step, and append symbols to a growing `String`.

use vstd::prelude::*;
use vstd::string::{StrSliceExecFns, StringExecFns, StringSliceAdditionalSpecFns};
use vstd::utf8::*;

verus! {

/// Trusted: `String::push` of the standard library, which appends the given
/// `char` to the end of the string.
pub assume_specification[ String::push ](text: &mut String, symbol: char)
    ensures
        final(text)@ == old(text)@.push(symbol),
;

/// The number of bytes that the UTF-8 encoding of `symbol` takes.
pub fn encoded_width(symbol: char) -> (width: usize)
    ensures
        1 <= width <= 4,
        width == encode_scalar(symbol as u32).len(),
{
    let code: u32 = symbol as u32;
    if code < 0x80 {
        1
    } else if code < 0x800 {
        2
    } else if code < 0x10000 {
        3
    } else {
        4
    }
}

/// Two texts with the same UTF-8 encoding hold the same symbols.
pub proof fn lemma_encoding_is_injective(a: Seq<char>, b: Seq<char>)
    requires
        encode_utf8(a) == encode_utf8(b),
    ensures
        a == b,
{
    encode_utf8_decode_utf8(a);
    encode_utf8_decode_utf8(b);
}

/// Splits `text` into its first symbol and the text that follows it.
///
/// Returns `None` exactly when `text` is empty. The tail is a sub-slice of
/// `text`, so nothing is copied.
pub fn split_first<'a>(text: &'a str) -> (parts: Option<(char, &'a str)>)
    ensures
        match parts {
            Some((head, tail)) => {
                &&& text@.len() > 0
                &&& head == text@[0]
                &&& tail@ == text@.drop_first()
            },
            None => text@.len() == 0,
        },
{
    if text.is_empty() {
        return None;
    }
    let head = text.get_char(0);
    let width = encoded_width(head);
    proof {
        // The encoding of the first symbol ends at a character boundary.
        let bytes = text.spec_bytes();
        encode_utf8_first_scalar(text@);
        encode_utf8_valid_utf8(text@.drop_first());
        assert(pop_first_scalar(bytes) =~= encode_utf8(text@.drop_first()));
        assert(is_char_boundary(pop_first_scalar(bytes), 0));
        assert(is_char_boundary(bytes, width as int));
    }
    let (_, tail) = text.split_at(width);
    proof {
        // What follows the boundary encodes the rest of the text.
        lemma_encoding_is_injective(tail@, text@.drop_first());
    }
    Some((head, tail))
}

/// Appends to `out` what one round of rewriting puts in the place of
/// `symbol`: `body`, the replacement found for it, or the symbol itself where
/// none was found.
pub fn append_successor(out: &mut String, symbol: char, body: Option<&str>)
    ensures
        final(out)@ == old(out)@ + (match body {
            Some(text) => text@,
            None => seq![symbol],
        }),
{
    match body {
        Some(text) => out.append(text),
        None => out.push(symbol),
    }
}

} // verus!
