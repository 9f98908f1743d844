//! Which font draws a piece of text: emoji detection over grapheme clusters, and the
//! choice among the preview's faces for each style.
use vstd::prelude::*;

use unicode_segmentation::UnicodeSegmentation;

use crate::spans::TextStyle;
use crate::text::{chars_of, joined, strings_view};

verus! {

/// The grapheme clusters (extended) of a text, as `unicode-segmentation` finds them.
pub uninterp spec fn grapheme_clusters(text: Seq<char>) -> Seq<Seq<char>>;

/// The extended grapheme clusters of `text` (`UnicodeSegmentation::graphemes(text, true)`),
/// each as a string. The clusters are the text cut at its boundaries: none is empty and
/// together they make up the text. Where the boundaries fall (UAX #29) is not stated; the
/// result is named [`grapheme_clusters`].
#[verifier::external_body]
fn graphemes_of(text: &str) -> (r: Vec<String>)
    ensures
        strings_view(r@) == grapheme_clusters(text@),
        joined(strings_view(r@)) == text@,
        forall|i: int| 0 <= i < r@.len() ==> #[trigger] r@[i]@.len() > 0,
{
    text.graphemes(true).map(|g| g.to_string()).collect()
}

/// The grapheme clusters of a text (see [`grapheme_clusters`]).
pub fn graphemes(text: &str) -> (r: Vec<String>)
    ensures
        strings_view(r@) == grapheme_clusters(text@),
        joined(strings_view(r@)) == text@,
        forall|i: int| 0 <= i < r@.len() ==> #[trigger] r@[i]@.len() > 0,
{
    graphemes_of(text)
}

/// Regional indicators, pictographs, miscellaneous symbols, dingbats, the emoji
/// presentation selector and the zero-width joiner.
pub open spec fn is_emoji_char(c: char) -> bool {
    ||| '\u{1F1E6}' <= c <= '\u{1F1FF}'
    ||| '\u{1F300}' <= c <= '\u{1FAFF}'
    ||| '\u{2600}' <= c <= '\u{26FF}'
    ||| '\u{2700}' <= c <= '\u{27BF}'
    ||| c == '\u{FE0F}'
    ||| c == '\u{200D}'
}

/// Some character of `s` belongs to an emoji.
pub open spec fn has_emoji(s: Seq<char>) -> bool {
    exists|i: int| 0 <= i < s.len() && is_emoji_char(#[trigger] s[i])
}

fn is_emoji_char_exec(c: char) -> (b: bool)
    ensures
        b == is_emoji_char(c),
{
    ('\u{1F1E6}' <= c && c <= '\u{1F1FF}') || ('\u{1F300}' <= c && c <= '\u{1FAFF}') || ('\u{2600}'
        <= c && c <= '\u{26FF}') || ('\u{2700}' <= c && c <= '\u{27BF}') || c == '\u{FE0F}' || c
        == '\u{200D}'
}

fn has_emoji_vec(s: &Vec<char>) -> (b: bool)
    ensures
        b == has_emoji(s@),
{
    let mut i: usize = 0;
    while i < s.len()
        invariant
            i <= s.len(),
            forall|k: int| 0 <= k < i ==> !is_emoji_char(#[trigger] s@[k]),
        decreases s.len() - i,
    {
        if is_emoji_char_exec(s[i]) {
            return true;
        }
        i += 1;
    }
    false
}

/// Whether a grapheme cluster holds an emoji character.
pub fn grapheme_has_emoji(grapheme: &str) -> (b: bool)
    ensures
        b == has_emoji(grapheme@),
{
    has_emoji_vec(&chars_of(grapheme))
}

pub proof fn lemma_joined_has_emoji(parts: Seq<Seq<char>>)
    ensures
        has_emoji(joined(parts)) <==> exists|i: int| 0 <= i < parts.len() && has_emoji(#[trigger] parts[i]),
    decreases parts.len(),
{
    if parts.len() > 0 {
        let init = parts.drop_last();
        lemma_joined_has_emoji(init);
        let j = joined(init);
        let l = parts.last();
        assert(joined(parts) == j + l);
        if has_emoji(j + l) {
            let k = choose|k: int| 0 <= k < (j + l).len() && is_emoji_char(#[trigger] (j + l)[k]);
            if k < j.len() {
                assert(j[k] == (j + l)[k]);
                let m = choose|m: int| 0 <= m < init.len() && has_emoji(#[trigger] init[m]);
                assert(parts[m] == init[m]);
            } else {
                assert(l[k - j.len()] == (j + l)[k]);
                assert(has_emoji(parts[parts.len() - 1]));
            }
        }
        if exists|i: int| 0 <= i < parts.len() && has_emoji(#[trigger] parts[i]) {
            let m = choose|m: int| 0 <= m < parts.len() && has_emoji(#[trigger] parts[m]);
            let k = choose|k: int| 0 <= k < parts[m].len() && is_emoji_char(#[trigger] parts[m][k]);
            if m < parts.len() - 1 {
                assert(init[m] == parts[m]);
                assert(has_emoji(j));
                let q = choose|q: int| 0 <= q < j.len() && is_emoji_char(#[trigger] j[q]);
                assert((j + l)[q] == j[q]);
            } else {
                assert((j + l)[j.len() + k] == l[k]);
            }
        }
    }
}

/// Whether some grapheme cluster of a text holds an emoji character, that is, whether
/// some character of it is one.
pub fn text_has_emoji(text: &str) -> (b: bool)
    ensures
        b == has_emoji(text@),
{
    let gs = graphemes_of(text);
    let ghost gv = strings_view(gs@);
    proof {
        lemma_joined_has_emoji(gv);
    }
    let mut i: usize = 0;
    while i < gs.len()
        invariant
            i <= gs.len(),
            gv == strings_view(gs@),
            joined(gv) == text@,
            has_emoji(joined(gv)) <==> exists|j: int| 0 <= j < gv.len() && has_emoji(#[trigger] gv[j]),
            forall|k: int| 0 <= k < i ==> !has_emoji(#[trigger] gv[k]),
        decreases gs.len() - i,
    {
        if grapheme_has_emoji(gs[i].as_str()) {
            assert(gv[i as int] == gs@[i as int]@);
            return true;
        }
        i += 1;
    }
    false
}

/// Every character is ASCII.
pub open spec fn is_ascii_text(s: Seq<char>) -> bool {
    forall|i: int| 0 <= i < s.len() ==> #[trigger] s[i] <= '\u{7F}'
}

/// Whether every character is ASCII.
pub fn ascii_only(s: &str) -> (b: bool)
    ensures
        b == is_ascii_text(s@),
{
    let cs = chars_of(s);
    let mut i: usize = 0;
    while i < cs.len()
        invariant
            i <= cs.len(),
            cs@ == s@,
            forall|k: int| 0 <= k < i ==> #[trigger] cs@[k] <= '\u{7F}',
        decreases cs.len() - i,
    {
        if cs[i] > '\u{7F}' {
            return false;
        }
        i += 1;
    }
    true
}

/// A face of the preview: the standard PDF fonts, the body font in its four styles, or
/// the emoji font.
#[derive(Clone, Copy, Debug, PartialEq, Eq, Structural)]
pub enum FontChoice {
    Courier,
    TimesItalic,
    HelveticaBold,
    HelveticaBoldOblique,
    Body,
    BodyBold,
    BodyItalic,
    BodyBoldItalic,
    Emoji,
}

/// What the preview's faces offer: a bold body font of its own, a bold italic one, an emoji
/// font, and a file behind the body font.
#[derive(Clone, Copy, Debug, PartialEq, Eq, Structural)]
pub struct FaceFlags {
    pub has_custom_bold: bool,
    pub has_custom_bold_italic: bool,
    pub has_emoji_font: bool,
    pub has_body_path: bool,
}

/// The face for text in a style: code and math in Courier and Times Italic when ASCII,
/// the body font otherwise; non-ASCII bold in the custom bold face when there is one (the
/// body font otherwise); ASCII bold in the custom bold face or Helvetica Bold; ASCII bold
/// italic in the bold italic face when a custom bold or bold italic face exists, Helvetica
/// Bold Oblique otherwise; italic in the body italic face for ASCII, the body font
/// otherwise; plain text in the body font.
pub open spec fn picked_font(flags: FaceFlags, style: TextStyle, text: Seq<char>) -> FontChoice {
    let ascii = is_ascii_text(text);
    if style.code {
        if ascii { FontChoice::Courier } else { FontChoice::Body }
    } else if style.math {
        if ascii { FontChoice::TimesItalic } else { FontChoice::Body }
    } else if style.bold && !ascii {
        if flags.has_custom_bold { FontChoice::BodyBold } else { FontChoice::Body }
    } else if style.bold && !style.italic {
        if flags.has_custom_bold { FontChoice::BodyBold } else { FontChoice::HelveticaBold }
    } else if style.bold {
        if flags.has_custom_bold_italic || flags.has_custom_bold {
            FontChoice::BodyBoldItalic
        } else {
            FontChoice::HelveticaBoldOblique
        }
    } else if style.italic {
        if ascii { FontChoice::BodyItalic } else { FontChoice::Body }
    } else {
        FontChoice::Body
    }
}

/// The face for text in a style (see [`picked_font`]).
pub fn pick_font(flags: FaceFlags, style: TextStyle, text: &str) -> (f: FontChoice)
    ensures
        f == picked_font(flags, style, text@),
{
    let ascii = ascii_only(text);
    if style.code {
        if ascii { FontChoice::Courier } else { FontChoice::Body }
    } else if style.math {
        if ascii { FontChoice::TimesItalic } else { FontChoice::Body }
    } else if style.bold && !ascii {
        if flags.has_custom_bold { FontChoice::BodyBold } else { FontChoice::Body }
    } else if style.bold && !style.italic {
        if flags.has_custom_bold { FontChoice::BodyBold } else { FontChoice::HelveticaBold }
    } else if style.bold {
        if flags.has_custom_bold_italic || flags.has_custom_bold {
            FontChoice::BodyBoldItalic
        } else {
            FontChoice::HelveticaBoldOblique
        }
    } else if style.italic {
        if ascii { FontChoice::BodyItalic } else { FontChoice::Body }
    } else {
        FontChoice::Body
    }
}

/// The face for one grapheme cluster: as [`picked_font`], except that an emoji outside code
/// and math goes to the emoji font when there is one.
pub open spec fn grapheme_font(flags: FaceFlags, style: TextStyle, g: Seq<char>) -> FontChoice {
    if !style.code && !style.math && has_emoji(g) && flags.has_emoji_font {
        FontChoice::Emoji
    } else {
        picked_font(flags, style, g)
    }
}

/// The face for one grapheme cluster (see [`grapheme_font`]).
pub fn font_for_grapheme(flags: FaceFlags, style: TextStyle, grapheme: &str) -> (f: FontChoice)
    ensures
        f == grapheme_font(flags, style, grapheme@),
{
    if !style.code && !style.math && grapheme_has_emoji(grapheme) && flags.has_emoji_font {
        FontChoice::Emoji
    } else {
        pick_font(flags, style, grapheme)
    }
}

/// Whether the text may need bold drawn by overprinting: non-ASCII bold italic without a
/// bold italic face, or non-ASCII bold without a bold face.
pub fn is_potential_bold_face(flags: FaceFlags, style: TextStyle, text: &str) -> (b: bool)
    ensures
        b == (if style.bold && style.italic && !is_ascii_text(text@) {
            !flags.has_custom_bold_italic
        } else {
            style.bold && !is_ascii_text(text@) && !flags.has_custom_bold
        }),
{
    let ascii = ascii_only(text);
    if style.bold && style.italic && !ascii {
        return !flags.has_custom_bold_italic;
    }
    style.bold && !ascii && !flags.has_custom_bold
}

/// Whether italic text is slanted by hand: italic text that is not all ASCII.
pub fn should_fake_italic(style: TextStyle, text: &str) -> (b: bool)
    ensures
        b == (style.italic && !is_ascii_text(text@)),
{
    style.italic && !ascii_only(text)
}

/// Whether an italic grapheme cluster is slanted by hand: not ASCII and not an emoji.
pub fn should_fake_italic_grapheme(style: TextStyle, grapheme: &str) -> (b: bool)
    ensures
        b == (style.italic && !is_ascii_text(grapheme@) && !has_emoji(grapheme@)),
{
    style.italic && !ascii_only(grapheme) && !grapheme_has_emoji(grapheme)
}

/// Whether italic text is drawn as a slanted raster image: italic prose (not code or math)
/// that is not all ASCII, has no emoji, and whose body font file is known.
pub fn should_raster_faux_italic(flags: FaceFlags, style: TextStyle, text: &str) -> (b: bool)
    ensures
        b == (style.italic && !style.code && !style.math && !is_ascii_text(text@) && !has_emoji(
            text@,
        ) && flags.has_body_path),
{
    style.italic && !style.code && !style.math && !ascii_only(text) && !text_has_emoji(text)
        && flags.has_body_path
}

/// A text holds an emoji exactly when one of its characters is a regional indicator
/// (U+1F1E6..=U+1F1FF), a pictograph (U+1F300..=U+1FAFF), a miscellaneous symbol
/// (U+2600..=U+26FF), a dingbat (U+2700..=U+27BF), the emoji presentation selector U+FE0F
/// or the zero-width joiner U+200D; and a text holds one when either of its parts does.
pub proof fn law_emoji_characters(s: Seq<char>, t: Seq<char>)
    ensures
        has_emoji(s) <==> exists|i: int|
            0 <= i < s.len() && {
                let c = #[trigger] s[i];
                ||| ('\u{1F1E6}' <= c && c <= '\u{1F1FF}')
                ||| ('\u{1F300}' <= c && c <= '\u{1FAFF}')
                ||| ('\u{2600}' <= c && c <= '\u{26FF}')
                ||| ('\u{2700}' <= c && c <= '\u{27BF}')
                ||| c == '\u{FE0F}'
                ||| c == '\u{200D}'
            },
        has_emoji(s + t) <==> has_emoji(s) || has_emoji(t),
{
    if has_emoji(s + t) {
        let k = choose|k: int| 0 <= k < (s + t).len() && is_emoji_char(#[trigger] (s + t)[k]);
        if k < s.len() {
            assert(s[k] == (s + t)[k]);
        } else {
            assert(t[k - s.len()] == (s + t)[k]);
        }
    }
    if has_emoji(s) {
        let k = choose|k: int| 0 <= k < s.len() && is_emoji_char(#[trigger] s[k]);
        assert((s + t)[k] == s[k]);
    }
    if has_emoji(t) {
        let k = choose|k: int| 0 <= k < t.len() && is_emoji_char(#[trigger] t[k]);
        assert((s + t)[s.len() + k] == t[k]);
    }
}

} // verus!
