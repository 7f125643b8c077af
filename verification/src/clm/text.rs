//! Text normalization: lowercase, transliterate to ASCII, keep the model's
//! alphabet.

use vstd::prelude::*;

verus! {

/// What `str::to_lowercase` returns for the text `s`.
pub uninterp spec fn lowercase_of(s: Seq<char>) -> Seq<char>;

/// What `unidecode::unidecode` returns for the text `s`.
pub uninterp spec fn unidecode_of(s: Seq<char>) -> Seq<char>;

/// `c` belongs to the model's alphabet: `a` to `z`, space, `.`, `,`, `!`.
pub open spec fn in_alphabet(c: char) -> bool {
    ('a' <= c && c <= 'z') || c == ' ' || c == '.' || c == ',' || c == '!'
}

/// The alphabet as a predicate on characters.
pub open spec fn alphabet_filter() -> spec_fn(char) -> bool {
    |c: char| in_alphabet(c)
}

/// The normalized form of `text`: lowercased, transliterated to ASCII,
/// lowercased again (a transliteration may hold capitals), and stripped of
/// every character outside the alphabet.
pub open spec fn normalize_spec(text: Seq<char>) -> Seq<char> {
    lowercase_of(unidecode_of(lowercase_of(text))).filter(alphabet_filter())
}

/// Every character of `text` belongs to the alphabet.
pub open spec fn is_alphabet_text(text: Seq<char>) -> bool {
    forall|i: int| 0 <= i < text.len() ==> in_alphabet(#[trigger] text[i])
}

/// Every character of `text` is an ASCII character.
pub open spec fn is_ascii_text(text: Seq<char>) -> bool {
    forall|i: int| 0 <= i < text.len() ==> (#[trigger] text[i]) as u32 <= 127
}

/// Calls `str::to_lowercase` of the standard library, which returns the
/// lowercase equivalent of the text. The contract names the result, the
/// lowercase form being a function of the text alone, and claims one thing
/// of it: a text that holds only the letters `a` to `z`, spaces and the
/// marks `.`, `,` and `!` is its own lowercase form, these letters being
/// lowercase already and the other characters having no case.
#[verifier::external_body]
pub(crate) fn lowercase(s: &str) -> (r: String)
    ensures
        r@ == lowercase_of(s@),
        is_alphabet_text(s@) ==> r@ == s@,
{
    s.to_lowercase()
}

/// Calls `unidecode::unidecode`, which maps each character to an ASCII
/// string by a fixed table. The contract names the result and claims what
/// the function's documentation guarantees: the result is ASCII, and
/// every ASCII character is mapped to itself, so that an ASCII text comes
/// back unchanged.
#[verifier::external_body]
pub(crate) fn transliterate(s: &str) -> (r: String)
    ensures
        r@ == unidecode_of(s@),
        is_ascii_text(r@),
        is_ascii_text(s@) ==> r@ == s@,
{
    unidecode::unidecode(s)
}

/// Calls `String::from(char)` of the standard library: the string that holds
/// exactly the character `c`.
#[verifier::external_body]
pub(crate) fn string_of_char(c: char) -> (r: String)
    ensures
        r@ == seq![c],
{
    String::from(c)
}

/// The characters of `s`, in order.
pub fn chars_of(s: &str) -> (out: Vec<char>)
    ensures
        out@ == s@,
{
    let mut out: Vec<char> = Vec::new();
    for c in it: s.chars()
        invariant
            out@ == it.seq().take(it.index() as int),
            it.seq() == s@,
    {
        out.push(c);
    }
    out
}

/// Whether `c` belongs to the model's alphabet.
pub fn is_in_alphabet(c: char) -> (b: bool)
    ensures
        b == in_alphabet(c),
{
    ('a' <= c && c <= 'z') || c == ' ' || c == '.' || c == ',' || c == '!'
}

/// Keeps the characters of `chars` that belong to the alphabet.
pub fn keep_alphabet(chars: &Vec<char>) -> (out: Vec<char>)
    ensures
        out@ == chars@.filter(alphabet_filter()),
        forall|i: int| 0 <= i < out.len() ==> in_alphabet(#[trigger] out@[i]),
        is_alphabet_text(chars@) ==> out@ == chars@,
{
    let mut out: Vec<char> = Vec::new();
    let mut i: usize = 0;
    proof {
        assert(chars@.take(0) =~= Seq::<char>::empty());
        reveal(Seq::filter);
    }
    while i < chars.len()
        invariant
            i <= chars.len(),
            out@ == chars@.take(i as int).filter(alphabet_filter()),
            forall|j: int| 0 <= j < out.len() ==> in_alphabet(#[trigger] out@[j]),
            is_alphabet_text(chars@) ==> out@ == chars@.take(i as int),
        decreases chars.len() - i,
    {
        let c = chars[i];
        proof {
            let next = chars@.take(i as int + 1);
            assert(next.drop_last() =~= chars@.take(i as int));
            assert(next.last() == c);
            reveal(Seq::filter);
            assert(alphabet_filter()(c) == in_alphabet(c));
        }
        if is_in_alphabet(c) {
            out.push(c);
        }
        proof {
            if is_alphabet_text(chars@) {
                assert(in_alphabet(chars@[i as int]));
                assert(out@ =~= chars@.take(i as int + 1));
            }
        }
        i += 1;
    }
    proof {
        assert(chars@.take(chars.len() as int) =~= chars@);
    }
    out
}

/// Normalizes `text`. A text that holds only characters of the alphabet
/// is its own normalized form.
pub fn normalize_text(text: &str) -> (out: Vec<char>)
    ensures
        out@ == normalize_spec(text@),
        forall|i: int| 0 <= i < out.len() ==> in_alphabet(#[trigger] out@[i]),
        is_alphabet_text(text@) ==> out@ == text@ && normalize_spec(text@) == text@,
{
    let lowered = lowercase(text);
    proof {
        if is_alphabet_text(text@) {
            assert forall|i: int| 0 <= i < text@.len() implies (#[trigger] text@[i]) as u32
                <= 127 by {
                assert(in_alphabet(text@[i]));
            }
        }
    }
    let ascii = transliterate(lowered.as_str());
    let relowered = lowercase(ascii.as_str());
    let chars = chars_of(relowered.as_str());
    keep_alphabet(&chars)
}

} // verus!
