//! Commit messages: the comment character, the trailers, and the message
//! without the line feeds at its start.

use vstd::prelude::*;
use vstd::utf8::{decode_utf8, valid_utf8};
use crate::error::{RepoError, Utf8Item};
use crate::tree::copy_bytes;

verus! {

/// Calls `git2::message_trailers_bytes` and copies the pairs out. What it
/// finds depends on how the process's locale classes bytes, so nothing is
/// claimed of the outcome.
#[verifier::external_body]
fn git_message_trailers(message: &str) -> (r: Result<Vec<(Vec<u8>, Vec<u8>)>, git2::Error>) {
    let trailers = git2::message_trailers_bytes(message)?;
    let mut pairs = Vec::new();
    for (key, value) in trailers.iter() {
        pairs.push((key.to_vec(), value.to_vec()));
    }
    Ok(pairs)
}

/// The values of a run of pairs of byte strings.
pub open spec fn pairs_view(pairs: Seq<(Vec<u8>, Vec<u8>)>) -> Seq<(Seq<u8>, Seq<u8>)> {
    Seq::new(pairs.len(), |i: int| (pairs[i].0@, pairs[i].1@))
}

/// The values of a run of pairs of strings.
pub open spec fn text_pairs_view(pairs: Seq<(String, String)>) -> Seq<(Seq<char>, Seq<char>)> {
    Seq::new(pairs.len(), |i: int| (pairs[i].0@, pairs[i].1@))
}

/// The byte that stands for a comment character, if it fits in one.
pub open spec fn comment_byte(comment_char: Option<char>) -> Option<Option<u8>> {
    match comment_char {
        Some(ch) => if ch as u32 <= 0xff {
            Some(Some(ch as u32 as u8))
        } else {
            None
        },
        None => Some(None),
    }
}

/// The byte that a comment character is handed to the store's library as,
/// when a message is cleaned up. A character that does not fit in a byte
/// is refused.
pub fn comment_char_byte(comment_char: Option<char>) -> (r: Result<Option<u8>, RepoError>)
    ensures
        match comment_byte(comment_char) {
            None => r matches Err(RepoError::CommentCharNotAscii { char }) && char
                == comment_char->0 as u32,
            Some(byte) => r matches Ok(b) && b == byte,
        },
{
    match comment_char {
        Some(ch) => {
            let code: u32 = ch as u32;
            if code > 0xff {
                return Err(RepoError::CommentCharNotAscii { char: code });
            }
            Ok(Some(code as u8))
        },
        None => Ok(None),
    }
}

/// The trailers whose key and value are both valid UTF-8, as text, in
/// order.
pub open spec fn decoded_trailers(pairs: Seq<(Seq<u8>, Seq<u8>)>) -> Seq<(Seq<char>, Seq<char>)>
    decreases pairs.len(),
{
    if pairs.len() == 0 {
        seq![]
    } else {
        let before = decoded_trailers(pairs.drop_last());
        let (key, value) = pairs.last();
        if valid_utf8(key) && valid_utf8(value) {
            before.push((decode_utf8(key), decode_utf8(value)))
        } else {
            before
        }
    }
}

/// Turns the trailers into text, leaving out those whose key or value is
/// not valid UTF-8.
pub fn decode_trailers(pairs: Vec<(Vec<u8>, Vec<u8>)>) -> (r: Vec<(String, String)>)
    ensures
        text_pairs_view(r@) == decoded_trailers(pairs_view(pairs@)),
{
    let ghost all = pairs_view(pairs@);
    let mut result: Vec<(String, String)> = Vec::new();
    let mut i: usize = 0;
    assert(text_pairs_view(result@) =~= decoded_trailers(all.take(0)));
    while i < pairs.len()
        invariant
            i <= pairs@.len(),
            all == pairs_view(pairs@),
            text_pairs_view(result@) == decoded_trailers(all.take(i as int)),
        decreases pairs@.len() - i,
    {
        let key = copy_bytes(pairs[i].0.as_slice());
        let value = copy_bytes(pairs[i].1.as_slice());
        proof {
            let next = all.take(i + 1);
            assert(next.drop_last() =~= all.take(i as int));
            assert(next.last() == all[i as int]);
        }
        let ghost before = text_pairs_view(result@);
        match (String::from_utf8(key), String::from_utf8(value)) {
            (Ok(key), Ok(value)) => {
                let ghost pair = (key@, value@);
                result.push((key, value));
                assert(text_pairs_view(result@) =~= before.push(pair));
            },
            _ => {},
        }
        i += 1;
    }
    assert(all.take(i as int) =~= all);
    result
}

/// The trailers of a raw commit message: the lines like
/// `Signed-off-by: someone` at its end, as pairs of key and value.
///
/// A message that is not valid UTF-8 is refused. Otherwise the store's
/// library reports an error, or finds pairs of key and value, of which
/// those whose key and value are valid UTF-8 are given (see
/// [`decode_trailers`]).
pub fn get_trailers(message_raw: &Vec<u8>) -> (r: Result<Vec<(String, String)>, RepoError>)
    ensures
        !valid_utf8(message_raw@) <==> (r matches Err(RepoError::DecodeUtf8 { item }) && item
            == Utf8Item::RawMessage),
        valid_utf8(message_raw@) ==> (r matches Err(RepoError::Git(_))) || (r matches Ok(found)
            && exists|pairs: Seq<(Seq<u8>, Seq<u8>)>|
            text_pairs_view(found@) == #[trigger] decoded_trailers(pairs)),
{
    let message = match String::from_utf8(copy_bytes(message_raw.as_slice())) {
        Ok(message) => message,
        Err(_) => {
            return Err(RepoError::DecodeUtf8 { item: Utf8Item::RawMessage });
        },
    };
    match git_message_trailers(message.as_str()) {
        Ok(pairs) => {
            let ghost found = pairs_view(pairs@);
            let decoded = decode_trailers(pairs);
            assert(text_pairs_view(decoded@) == decoded_trailers(found));
            Ok(decoded)
        },
        Err(err) => Err(RepoError::Git(err)),
    }
}

/// The message without the line feeds at its start.
pub open spec fn pretty_message(raw: Seq<u8>) -> Seq<u8>
    decreases raw.len(),
{
    if raw.len() > 0 && raw[0] == 0x0a {
        pretty_message(raw.drop_first())
    } else {
        raw
    }
}

/// The message of a commit with the line feeds at its start left out.
pub fn get_message_pretty(message_raw: &Vec<u8>) -> (r: Vec<u8>)
    ensures
        r@ == pretty_message(message_raw@),
{
    let mut start: usize = 0;
    assert(message_raw@.skip(0) =~= message_raw@);
    while start < message_raw.len() && message_raw[start] == 0x0a
        invariant
            start <= message_raw@.len(),
            pretty_message(message_raw@) == pretty_message(message_raw@.skip(start as int)),
        decreases message_raw@.len() - start,
    {
        assert(message_raw@.skip(start as int)[0] == message_raw@[start as int]);
        assert(message_raw@.skip(start as int).drop_first() =~= message_raw@.skip(start + 1));
        start += 1;
    }
    proof {
        if start < message_raw@.len() {
            assert(message_raw@.skip(start as int)[0] == message_raw@[start as int]);
        }
    }
    let mut out: Vec<u8> = Vec::new();
    let mut i: usize = start;
    while i < message_raw.len()
        invariant
            start <= i <= message_raw@.len(),
            out@ == message_raw@.subrange(start as int, i as int),
        decreases message_raw@.len() - i,
    {
        out.push(message_raw[i]);
        assert(out@ =~= message_raw@.subrange(start as int, i + 1));
        i += 1;
    }
    assert(out@ =~= message_raw@.skip(start as int));
    out
}

} // verus!
