//! Lower case, as command labels and status words are compared.

use vstd::prelude::*;
use vstd::utf8::is_ascii_chars;
use crate::text::chars_of;

verus! {

/// What `str::to_lowercase` returns for the text `s`: its lower-case
/// equivalent by the Unicode case mappings.
pub uninterp spec fn unicode_lowercase(s: Seq<char>) -> Seq<char>;

/// Taken on trust of `str::to_lowercase`: what it returns depends on the
/// characters of `s` alone. That result has the name `unicode_lowercase`;
/// nothing more is claimed of it.
#[verifier::external_body]
fn unicode_lower(s: &str) -> (r: String)
    ensures
        r@ == unicode_lowercase(s@),
{
    s.to_lowercase()
}

/// The lower-case form of an ASCII character: a capital letter gives its small
/// letter, any other character itself.
pub open spec fn lower_char(c: char) -> char {
    if 'A' <= c <= 'Z' {
        ((c as u32) + 32) as char
    } else {
        c
    }
}

/// The lower-case form of a text. In a text of ASCII characters each capital
/// letter becomes its small letter; a text with other characters is mapped by
/// the Unicode case mappings.
pub open spec fn lowercase(s: Seq<char>) -> Seq<char> {
    if is_ascii_chars(s) {
        Seq::new(s.len(), |i: int| lower_char(s[i]))
    } else {
        unicode_lowercase(s)
    }
}

/// Lower case repeats nothing on a text of ASCII characters: the lower-case
/// form of such a text is its own lower-case form.
pub proof fn lemma_lowercase_ascii_idempotent(s: Seq<char>)
    requires
        is_ascii_chars(s),
    ensures
        is_ascii_chars(lowercase(s)),
        lowercase(lowercase(s)) == lowercase(s),
{
    let l = lowercase(s);
    assert forall|i: int| 0 <= i < l.len() implies '\0' <= #[trigger] l[i] <= '\u{7f}' by {
        assert('\0' <= s[i] <= '\u{7f}');
    }
    assert(lowercase(l) =~= l);
}

/// The lower-case form of the ASCII character `c`.
pub fn to_lower_char(c: char) -> (r: char)
    ensures
        r == lower_char(c),
{
    if c >= 'A' && c <= 'Z' {
        let n: u8 = c as u8;
        (n + 32) as char
    } else {
        c
    }
}

/// The lower-case form of `s`. A text of ASCII characters is lowered here,
/// letter by letter; any other is handed to `str::to_lowercase`.
pub fn to_lowercase(s: &str) -> (r: String)
    ensures
        r@ == lowercase(s@),
{
    if s.is_ascii() {
        let cs = chars_of(s);
        let mut r = String::new();
        let mut i: usize = 0;
        while i < cs.len()
            invariant
                i <= cs.len(),
                r@ == Seq::new(i as nat, |k: int| lower_char(cs@[k])),
            decreases cs.len() - i,
        {
            r.push(to_lower_char(cs[i]));
            i += 1;
            assert(r@ =~= Seq::new(i as nat, |k: int| lower_char(cs@[k])));
        }
        assert(r@ =~= lowercase(s@));
        r
    } else {
        unicode_lower(s)
    }
}

} // verus!
