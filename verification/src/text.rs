//! Texts as sequences of characters and of bytes: what the listing needs to
//! take paths apart and to order names.

use vstd::prelude::*;
use vstd::utf8::encode_utf8;

verus! {

/// The characters of `text`, in order.
pub fn chars_of(text: &str) -> (chars: Vec<char>)
    ensures
        chars@ == text@,
{
    broadcast use vstd::string::axiom_spec_iter;

    let mut chars: Vec<char> = Vec::new();
    for c in it: text.chars()
        invariant
            it.seq() == text@,
            chars@ == text@.take(it.index()),
    {
        chars.push(c);
        assert(text@.take(it.index() + 1) =~= text@.take(it.index()).push(c));
    }
    assert(text@.take(text@.len() as int) =~= text@);
    chars
}

/// What is left of `text` behind `prefix`, where `text` starts with it.
pub open spec fn stripped(text: Seq<char>, prefix: Seq<char>) -> Option<Seq<char>> {
    if prefix.is_prefix_of(text) {
        Some(text.skip(prefix.len() as int))
    } else {
        None
    }
}

/// Takes `prefix` off the front of `text`. Returns `None` where `text` does
/// not start with `prefix`.
pub fn strip_prefix(text: &str, prefix: &str) -> (rest: Option<String>)
    ensures
        rest.deep_view() == stripped(text@, prefix@),
{
    let chars = chars_of(text);
    let lead = chars_of(prefix);
    if lead.len() > chars.len() {
        return None;
    }
    let mut i: usize = 0;
    while i < lead.len()
        invariant
            i <= lead.len() <= chars.len(),
            chars@ == text@,
            lead@ == prefix@,
            forall|k: int| 0 <= k < i ==> text@[k] == prefix@[k],
        decreases lead.len() - i,
    {
        if chars[i] != lead[i] {
            assert(text@.subrange(0, prefix@.len() as int)[i as int] != prefix@[i as int]);
            return None;
        }
        i += 1;
    }
    assert(prefix@ =~= text@.subrange(0, prefix@.len() as int));
    let rest = text.substring_char(lead.len(), chars.len());
    Some(String::from_str(rest))
}

/// The components of a path written with `/` between them. A text without
/// `/` is one component, and so is the empty text; each `/` starts a new
/// one. Every component is text.
pub open spec fn components(text: Seq<char>) -> Seq<Option<Seq<char>>>
    decreases text.len(),
{
    if text.len() == 0 {
        seq![Some(Seq::empty())]
    } else {
        let head = components(text.drop_last());
        if text.last() == '/' {
            head.push(Some(Seq::empty()))
        } else {
            head.update(head.len() - 1, Some(head.last()->0.push(text.last())))
        }
    }
}

/// A text has at least one component, and each of its components is text.
pub proof fn lemma_components_are_text(text: Seq<char>)
    ensures
        components(text).len() >= 1,
        forall|i: int| 0 <= i < components(text).len() ==> (#[trigger] components(text)[i]) is Some,
    decreases text.len(),
{
    if text.len() > 0 {
        lemma_components_are_text(text.drop_last());
    }
}

/// Splits a path written with `/` into its components.
pub fn split_components(text: &str) -> (parts: Vec<Option<String>>)
    ensures
        parts.deep_view() == components(text@),
{
    let chars = chars_of(text);
    let mut parts: Vec<Option<String>> = Vec::new();
    let mut start: usize = 0;
    let mut i: usize = 0;
    assert(text@.take(0) =~= Seq::<char>::empty());
    assert(text@.subrange(0, 0) =~= Seq::<char>::empty());
    assert(parts.deep_view().push(Some(Seq::<char>::empty())) =~= seq![
        Some(Seq::<char>::empty()),
    ]);
    while i < chars.len()
        invariant
            start <= i <= chars.len(),
            chars@ == text@,
            components(text@.take(i as int)) == parts.deep_view().push(
                Some(text@.subrange(start as int, i as int)),
            ),
        decreases chars.len() - i,
    {
        let ghost before = parts.deep_view();
        let ghost upto = text@.take(i as int);
        let ghost next = text@.take(i + 1);
        assert(next.drop_last() =~= upto);
        assert(next.last() == text@[i as int]);
        if chars[i] == '/' {
            let part = text.substring_char(start, i);
            parts.push(Some(String::from_str(part)));
            start = i + 1;
            assert(text@.subrange(start as int, i + 1) =~= Seq::<char>::empty());
            assert(parts.deep_view() =~= before.push(Some(part@)));
        } else {
            assert(text@.subrange(start as int, i + 1) =~= text@.subrange(
                start as int,
                i as int,
            ).push(text@[i as int]));
            assert(components(next) =~= before.push(Some(text@.subrange(start as int, i + 1))));
        }
        i += 1;
    }
    assert(text@.take(i as int) =~= text@);
    let ghost before = parts.deep_view();
    let part = text.substring_char(start, i);
    parts.push(Some(String::from_str(part)));
    assert(parts.deep_view() =~= before.push(Some(part@)));
    parts
}

/// The order of byte strings: by the first byte in which they differ, and a
/// proper prefix comes first.
pub open spec fn bytes_le(a: Seq<u8>, b: Seq<u8>) -> bool
    decreases a.len(),
{
    if a.len() == 0 {
        true
    } else if b.len() == 0 {
        false
    } else if a[0] != b[0] {
        a[0] < b[0]
    } else {
        bytes_le(a.skip(1), b.skip(1))
    }
}

/// The order of names: the order of their UTF-8 bytes.
pub open spec fn name_le(a: Seq<char>, b: Seq<char>) -> bool {
    bytes_le(encode_utf8(a), encode_utf8(b))
}

/// Of two byte strings one comes first.
pub proof fn lemma_bytes_le_total(a: Seq<u8>, b: Seq<u8>)
    ensures
        bytes_le(a, b) || bytes_le(b, a),
    decreases a.len(),
{
    if a.len() > 0 && b.len() > 0 && a[0] == b[0] {
        lemma_bytes_le_total(a.skip(1), b.skip(1));
    }
}

/// The order of byte strings is transitive.
pub proof fn lemma_bytes_le_transitive(a: Seq<u8>, b: Seq<u8>, c: Seq<u8>)
    requires
        bytes_le(a, b),
        bytes_le(b, c),
    ensures
        bytes_le(a, c),
    decreases a.len(),
{
    if a.len() > 0 && b.len() > 0 && c.len() > 0 && a[0] == b[0] && b[0] == c[0] {
        lemma_bytes_le_transitive(a.skip(1), b.skip(1), c.skip(1));
    }
}

/// Two byte strings that come before each other are the same.
pub proof fn lemma_bytes_le_antisymmetric(a: Seq<u8>, b: Seq<u8>)
    requires
        bytes_le(a, b),
        bytes_le(b, a),
    ensures
        a == b,
    decreases a.len(),
{
    if a.len() > 0 && b.len() > 0 {
        lemma_bytes_le_antisymmetric(a.skip(1), b.skip(1));
        assert(a =~= seq![a[0]] + a.skip(1));
        assert(b =~= seq![b[0]] + b.skip(1));
    } else {
        assert(a =~= b);
    }
}

/// Whether the bytes `a` come before the bytes `b` or are the same.
pub fn bytes_before(a: &[u8], b: &[u8]) -> (le: bool)
    ensures
        le == bytes_le(a@, b@),
{
    let mut i: usize = 0;
    assert(a@.skip(0) =~= a@);
    assert(b@.skip(0) =~= b@);
    while i < a.len() && i < b.len()
        invariant
            i <= a.len(),
            i <= b.len(),
            bytes_le(a@, b@) == bytes_le(a@.skip(i as int), b@.skip(i as int)),
        decreases a.len() - i,
    {
        assert(a@.skip(i as int)[0] == a@[i as int]);
        assert(b@.skip(i as int)[0] == b@[i as int]);
        if a[i] != b[i] {
            return a[i] < b[i];
        }
        assert(a@.skip(i as int).skip(1) =~= a@.skip(i + 1));
        assert(b@.skip(i as int).skip(1) =~= b@.skip(i + 1));
        i += 1;
    }
    i == a.len()
}

/// Whether the name `a` comes before the name `b` or is the same.
pub fn name_before(a: &str, b: &str) -> (le: bool)
    ensures
        le == name_le(a@, b@),
{
    bytes_before(a.as_bytes(), b.as_bytes())
}

} // verus!
