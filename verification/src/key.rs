//! Stream keys: the names the file client and the stdio client take.

use sea_streamer_types::StreamKey;
use vstd::prelude::*;
use vstd::string::*;

use crate::error::{self, SeaFileError};

verus! {

/// The characters a stream key is made of.
pub open spec fn is_key_char(c: char) -> bool {
    ||| 'a' <= c <= 'z'
    ||| 'A' <= c <= 'Z'
    ||| '0' <= c <= '9'
    ||| c == '.'
    ||| c == '_'
    ||| c == '-'
}

/// Whether the clients take `name` as a stream key. They take the empty one too.
pub open spec fn is_stream_key(name: Seq<char>) -> bool {
    &&& name.len() <= 249
    &&& forall|i: int| 0 <= i < name.len() ==> is_key_char(#[trigger] name[i])
}

/// What the clients say of a name that is no stream key.
pub open spec fn key_refusal() -> Seq<char> {
    "Invalid stream key: valid pattern is [a-zA-Z0-9._-]{1, 249}"@
}

/// The refusal of a name that is no stream key, naming it.
pub open spec fn refused_key(name: Seq<char>) -> error::ErrorView {
    error::ErrorView::Invalid("'"@ + name + "': "@ + key_refusal())
}

/// `StreamKey::new`: the key's name when it is at most 249 bytes of letters, digits, `.`, `_` and
/// `-`, and the text of `StreamKeyErr::InvalidStreamKey` when it is not. Such a key has as many
/// bytes as characters.
#[verifier::external_body]
fn parse_key(name: &str) -> (key: Result<String, String>)
    ensures
        key is Ok <==> is_stream_key(name@),
        key matches Ok(key) ==> key@ == name@,
        key matches Err(why) ==> why@ == key_refusal(),
{
    StreamKey::new(name).map(|key| key.name().to_owned()).map_err(|err| err.to_string())
}

/// The stream key `name` is, or the error that says it is none.
pub fn checked_key(name: &str) -> (key: Result<String, SeaFileError>)
    ensures
        key is Ok <==> is_stream_key(name@),
        key matches Ok(key) ==> key@ == name@,
        key matches Err(error) ==> error@ == refused_key(name@),
{
    match parse_key(name) {
        Ok(key) => Ok(key),
        Err(refusal) => {
            let mut why = "'".to_owned();
            why.append(name);
            why.append("': ");
            why.append(refusal.as_str());
            Err(SeaFileError::Invalid(why))
        },
    }
}

/// A stream key is at most 249 letters, digits, dots, underscores and hyphens: whether a name is one
/// is told by its characters one by one, and by its length.
pub proof fn law_a_key_is_told_by_its_characters(name: Seq<char>)
    ensures
        is_stream_key(name) <==> name.len() <= 249 && forall|i: int|
            0 <= i < name.len() ==> ('a' <= (#[trigger] name[i]) <= 'z') || ('A' <= name[i]
                <= 'Z') || ('0' <= name[i] <= '9') || name[i] == '.' || name[i] == '_' || name[i]
                == '-',
        refused_key(name) == error::ErrorView::Invalid(
            "'"@ + name + "': "@
                + "Invalid stream key: valid pattern is [a-zA-Z0-9._-]{1, 249}"@,
        ),
{
    if is_stream_key(name) {
        assert forall|i: int| 0 <= i < name.len() implies ('a' <= (#[trigger] name[i]) <= 'z')
            || ('A' <= name[i] <= 'Z') || ('0' <= name[i] <= '9') || name[i] == '.' || name[i]
            == '_' || name[i] == '-' by {
            assert(is_key_char(name[i]));
        }
    }
}

/// A key is the name it was checked from, and a name is refused exactly where it is no key, by an
/// error that names it and says what a key looks like.
pub proof fn law_a_checked_key_is_its_name(name: &str, key: Result<String, SeaFileError>)
    requires
        call_ensures(checked_key, (name,), key),
    ensures
        key is Ok <==> is_stream_key(name@),
        key matches Ok(key) ==> key@ == name@,
        key matches Err(error) ==> error@ == error::ErrorView::Invalid(
            "'"@ + name@ + "': "@
                + "Invalid stream key: valid pattern is [a-zA-Z0-9._-]{1, 249}"@,
        ),
{
}

} // verus!
