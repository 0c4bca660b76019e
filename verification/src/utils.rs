//! Percent-encoding of relative paths, component by component.

use vstd::prelude::*;
use vstd::utf8::encode_utf8;

verus! {

/// Bytes that percent-encoding leaves as they are: ASCII letters, digits,
/// `-`, `.`, `_` and `~`.
pub open spec fn is_unreserved(b: u8) -> bool {
    ||| 0x30 <= b <= 0x39
    ||| 0x41 <= b <= 0x5a
    ||| 0x61 <= b <= 0x7a
    ||| b == 0x2d
    ||| b == 0x2e
    ||| b == 0x5f
    ||| b == 0x7e
}

/// The upper-case hexadecimal digit for a value below 16.
pub open spec fn hex_digit_upper(n: u8) -> char {
    if n < 10 {
        (0x30 + n) as char
    } else {
        (0x37 + n) as char
    }
}

/// One byte, percent-encoded: itself when unreserved, else `%` and two
/// upper-case hexadecimal digits.
pub open spec fn encoded_byte(b: u8) -> Seq<char> {
    if is_unreserved(b) {
        seq![b as char]
    } else {
        seq!['%', hex_digit_upper(b / 16), hex_digit_upper(b % 16)]
    }
}

/// A byte string, percent-encoded byte by byte.
pub open spec fn encoded_bytes(bytes: Seq<u8>) -> Seq<char>
    decreases bytes.len(),
{
    if bytes.len() == 0 {
        Seq::empty()
    } else {
        encoded_bytes(bytes.drop_last()) + encoded_byte(bytes.last())
    }
}

/// A text, percent-encoded over its UTF-8 bytes.
pub open spec fn encoded_text(text: Seq<char>) -> Seq<char> {
    encoded_bytes(encode_utf8(text))
}

/// The encoded form of a path given by its components: each component
/// percent-encoded on its own, joined by `/`. A component that is no text
/// (`None`) leaves the whole path without an encoded form.
pub open spec fn urlencoded_path(parts: Seq<Option<Seq<char>>>) -> Option<Seq<char>>
    decreases parts.len(),
{
    if parts.len() == 0 {
        Some(Seq::empty())
    } else {
        match (urlencoded_path(parts.drop_last()), parts.last()) {
            (Some(head), Some(item)) => Some(
                if parts.len() == 1 {
                    encoded_text(item)
                } else {
                    head + seq!['/'] + encoded_text(item)
                },
            ),
            _ => None,
        }
    }
}

/// A path with a component that is no text has no encoded form, wherever
/// that component stands.
pub proof fn lemma_urlencoded_path_none(parts: Seq<Option<Seq<char>>>, i: int)
    requires
        0 <= i < parts.len(),
        parts[i] is None,
    ensures
        urlencoded_path(parts) is None,
    decreases parts.len(),
{
    if i < parts.len() - 1 {
        lemma_urlencoded_path_none(parts.drop_last(), i);
    }
}

/// A path has an encoded form exactly where each of its components is text.
pub proof fn lemma_urlencoded_path_exists(parts: Seq<Option<Seq<char>>>)
    ensures
        urlencoded_path(parts) is Some <==> forall|i: int|
            0 <= i < parts.len() ==> (#[trigger] parts[i]) is Some,
    decreases parts.len(),
{
    if parts.len() > 0 {
        let head = parts.drop_last();
        lemma_urlencoded_path_exists(head);
        if forall|i: int| 0 <= i < parts.len() ==> (#[trigger] parts[i]) is Some {
            assert forall|i: int| 0 <= i < head.len() implies (#[trigger] head[i]) is Some by {
                assert(head[i] == parts[i]);
            }
            assert(parts.last() == parts[parts.len() - 1]);
        } else {
            let i = choose|i: int| 0 <= i < parts.len() && !((#[trigger] parts[i]) is Some);
            lemma_urlencoded_path_none(parts, i);
        }
    }
}

/// Calls `urlencoding::encode`, which walks the UTF-8 bytes of `item`, keeps
/// each unreserved byte and writes every other byte as `%` and two
/// upper-case hexadecimal digits.
#[verifier::external_body]
fn percent_encode(item: &str) -> (encoded: String)
    ensures
        encoded@ == encoded_text(item@),
{
    urlencoding::encode(item).into_owned()
}

/// Builds the URL-safe form of a path relative to the served root, given by
/// its components in order. Returns `None` when a component is no text.
pub fn get_urlencoded_path(path_from_root: &Vec<Option<String>>) -> (res: Option<String>)
    ensures
        res.deep_view() == urlencoded_path(path_from_root.deep_view()),
{
    let ghost parts = path_from_root.deep_view();
    let mut res = String::new();
    let mut i: usize = 0;
    while i < path_from_root.len()
        invariant
            i <= path_from_root.len(),
            parts == path_from_root.deep_view(),
            urlencoded_path(parts.take(i as int)) == Some(res@),
        decreases path_from_root.len() - i,
    {
        proof {
            assert(parts.take(i + 1).drop_last() =~= parts.take(i as int));
        }
        match &path_from_root[i] {
            None => {
                proof {
                    lemma_urlencoded_path_none(parts, i as int);
                }
                return None;
            },
            Some(item) => {
                if i > 0 {
                    res.append("/");
                    proof {
                        reveal_strlit("/");
                        assert("/"@ =~= seq!['/']);
                    }
                }
                let encoded = percent_encode(item.as_str());
                res.append(encoded.as_str());
            },
        }
        i += 1;
    }
    proof {
        assert(parts.take(i as int) =~= parts);
    }
    Some(res)
}

} // verus!
