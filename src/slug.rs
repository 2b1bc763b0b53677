use vstd::prelude::*;
use crate::text::{chars_of, push_char};

verus! {

/// What `str::to_lowercase` makes of a text (Unicode lowercase mapping).
pub uninterp spec fn lower_of(s: Seq<char>) -> Seq<char>;

/// Whether `char::is_alphanumeric` accepts a character (Unicode
/// `Alphabetic` or `Numeric`).
pub uninterp spec fn alnum_of(c: char) -> bool;

/// An ASCII letter or digit.
pub open spec fn is_ascii_alnum(c: char) -> bool {
    ('a' <= c <= 'z') || ('A' <= c <= 'Z') || ('0' <= c <= '9')
}

/// The ASCII lowercase of a character: `A`–`Z` become `a`–`z`, every other
/// character stays.
pub open spec fn ascii_lower(c: char) -> char {
    if 'A' <= c <= 'Z' {
        ((c as u32) + 32) as char
    } else {
        c
    }
}

/// Every character of `s` is ASCII.
pub open spec fn all_ascii(s: Seq<char>) -> bool {
    forall|i: int| 0 <= i < s.len() ==> (#[trigger] s[i]) <= '\u{7f}'
}

/// Relies on `char::is_alphanumeric`: whether the character is alphabetic or
/// numeric in Unicode's sense, which for ASCII means exactly the letters and
/// digits.
#[verifier::external_body]
fn is_alphanumeric(c: char) -> (r: bool)
    ensures
        r == alnum_of(c),
        is_ascii_alnum(c) ==> r,
        c <= '\u{7f}' && !is_ascii_alnum(c) ==> !r,
{
    c.is_alphanumeric()
}

/// Relies on `str::to_lowercase`: the Unicode lowercase of the text, which on
/// ASCII text turns `A`–`Z` into `a`–`z` and keeps every other character.
#[verifier::external_body]
fn lowercase(s: &str) -> (r: String)
    ensures
        r@ == lower_of(s@),
        all_ascii(s@) ==> r@ == s@.map_values(|c: char| ascii_lower(c)),
{
    s.to_lowercase()
}

/// What one character of an already lowercased label becomes in its
/// anchor: a space becomes a hyphen, alphanumeric characters and hyphens
/// stay, every other character is dropped.
pub open spec fn anchor_char(c: char) -> Option<char> {
    if c == ' ' {
        Some('-')
    } else if alnum_of(c) || c == '-' {
        Some(c)
    } else {
        None
    }
}

/// The anchor of an already lowercased label.
pub open spec fn slug_of_lowered(l: Seq<char>) -> Seq<char> {
    l.filter_map(|c: char| anchor_char(c))
}

/// The anchor of a label: lowercase it, turn spaces into hyphens, then drop
/// every character that is neither alphanumeric nor a hyphen.
pub open spec fn slug_of(s: Seq<char>) -> Seq<char> {
    slug_of_lowered(lower_of(s))
}

/// Every anchor is URL-fragment friendly: it holds only alphanumeric
/// characters and hyphens, no space; and a lowercased label in which no
/// character is a space, a hyphen or alphanumeric has the empty anchor.
pub proof fn lemma_slug_alphabet(l: Seq<char>)
    ensures
        forall|i: int|
            0 <= i < slug_of_lowered(l).len() ==> {
                let c = #[trigger] slug_of_lowered(l)[i];
                &&& alnum_of(c) || c == '-'
                &&& c != ' '
            },
        (forall|i: int| 0 <= i < l.len() ==> anchor_char(#[trigger] l[i]) is None)
            ==> slug_of_lowered(l) == Seq::<char>::empty(),
    decreases l.len(),
{
    if l.len() > 0 {
        let init = l.drop_last();
        lemma_slug_alphabet(init);
        assert(forall|i: int| 0 <= i < init.len() ==> init[i] == l[i]);
        match anchor_char(l.last()) {
            Some(d) => {
                assert(slug_of_lowered(l) == slug_of_lowered(init) + seq![d]);
            },
            None => {
                assert(slug_of_lowered(l) == slug_of_lowered(init));
            },
        }
    } else {
        assert(slug_of_lowered(l) == Seq::<char>::empty());
    }
}

fn anchor_char_exec(c: char) -> (r: Option<char>)
    ensures
        r == anchor_char(c),
{
    if c == ' ' {
        Some('-')
    } else if is_alphanumeric(c) || c == '-' {
        Some(c)
    } else {
        None
    }
}

/// Appends the anchor of the already lowercased text `lowered` to `out`.
fn push_slug_lowered(out: &mut String, lowered: &str)
    ensures
        final(out)@ == old(out)@ + slug_of_lowered(lowered@),
{
    let cs = chars_of(lowered);
    let mut i: usize = 0;
    assert(cs@.take(0) =~= Seq::<char>::empty());
    while i < cs.len()
        invariant
            cs@ == lowered@,
            i <= cs@.len(),
            out@ == old(out)@ + slug_of_lowered(cs@.take(i as int)),
        decreases cs@.len() - i,
    {
        let c = cs[i];
        assert(cs@.take(i + 1).drop_last() =~= cs@.take(i as int));
        assert(cs@.take(i + 1).last() == c);
        match anchor_char_exec(c) {
            Some(d) => {
                push_char(out, d);
                assert(slug_of_lowered(cs@.take(i + 1)) == slug_of_lowered(cs@.take(i as int))
                    + seq![d]);
                assert(out@ =~= old(out)@ + slug_of_lowered(cs@.take(i + 1)));
            },
            None => {
                assert(slug_of_lowered(cs@.take(i + 1)) == slug_of_lowered(cs@.take(i as int)));
            },
        }
        i = i + 1;
    }
    assert(cs@.take(cs@.len() as int) =~= cs@);
}

/// Appends the anchor of `text` to `out`.
pub(crate) fn push_slug(out: &mut String, text: &str)
    ensures
        final(out)@ == old(out)@ + slug_of(text@),
{
    let lowered = lowercase(text);
    push_slug_lowered(out, lowered.as_str());
}

/// The anchor of a label that is already lowercase: spaces turned into
/// hyphens, every character that is neither alphanumeric nor a hyphen
/// dropped. Repeated hyphens stay; nothing is cut.
pub fn slug_from_lowercase(lowered: &str) -> (r: String)
    ensures
        r@ == slug_of_lowered(lowered@),
{
    let mut r = String::new();
    push_slug_lowered(&mut r, lowered);
    assert(r@ =~= slug_of_lowered(lowered@));
    r
}

/// The URL-fragment anchor of a label: lowercased, spaces turned into
/// hyphens, every character that is neither alphanumeric nor a hyphen
/// dropped. Repeated hyphens stay; nothing is cut.
pub fn slug(text: &str) -> (r: String)
    ensures
        r@ == slug_of(text@),
{
    let mut r = String::new();
    push_slug(&mut r, text);
    assert(r@ =~= slug_of(text@));
    r
}

/// The link target of a Markdown heading: `#` followed by the anchor of its
/// text.
pub fn get_md_heading_url(text: &str) -> (r: String)
    ensures
        r@ == seq!['#'] + slug_of(text@),
{
    let mut r = String::new();
    push_char(&mut r, '#');
    push_slug(&mut r, text);
    r
}

} // verus!
