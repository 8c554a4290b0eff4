//! The parts of text recognition that do not need the Windows OCR engine:
//! its results as the frontend reads them, the language tag a request may
//! name, and the sizes of the image prepared for recognition.
use vstd::prelude::*;

use crate::history::strings_view;
use crate::text::chars_of;
use crate::text::control;
use crate::text::extend_chars;
use crate::text::is_control;
use crate::text::string_of;
use crate::text::trim;
use crate::text::trim_chars;
use crate::text::utf8_len;
use crate::text::utf8_len_exceeds;

verus! {

/// A rectangle of the source image, in pixels.
#[derive(Clone, Copy, Debug, PartialEq, Eq, Structural)]
pub struct OcrRectPayload {
    pub x: u32,
    pub y: u32,
    pub width: u32,
    pub height: u32,
}

/// One recognized line of text and where it stands in the source image.
#[derive(Clone, Debug)]
pub struct OcrLinePayload {
    pub text: String,
    pub rect: OcrRectPayload,
}

/// A recognition language installed in Windows.
#[derive(Clone, Debug)]
pub struct OcrLanguagePayload {
    pub tag: String,
    pub display_name: String,
    pub native_name: String,
}

/// The recognition languages; recognition runs on Windows only, so
/// elsewhere this is an error.
pub fn available_languages() -> (r: Result<Vec<OcrLanguagePayload>, String>)
    ensures
        r matches Err(e) && e@ == "OCR is currently available only on Windows"@,
{
    Err("OCR is currently available only on Windows".to_owned())
}

/// The language a request names: none when it names none or only white
/// space (the user's profile languages are used then); refused when longer
/// than 128 bytes or holding a control character.
pub open spec fn spec_explicit_language_tag(tag: Option<Seq<char>>) -> Result<Option<Seq<char>>, Seq<char>> {
    match tag {
        None => Ok(None),
        Some(t) => if trim(t).len() == 0 {
            Ok(None)
        } else if utf8_len(t) > 128 || exists|i: int| 0 <= i < t.len() && is_control(#[trigger] t[i]) {
            Err("OCR language tag is invalid"@)
        } else {
            Ok(Some(t))
        },
    }
}

pub fn explicit_language_tag(tag: Option<&str>) -> (r: Result<Option<String>, String>)
    ensures
        crate::history::optional_text_result(
            r,
            spec_explicit_language_tag(
                match tag {
                    Some(t) => Some(t@),
                    None => None,
                },
            ),
        ),
{
    let t = match tag {
        None => return Ok(None),
        Some(t) => t,
    };
    let chars = chars_of(t);
    let trimmed = trim_chars(chars.as_slice());
    if trimmed.len() == 0 {
        return Ok(None);
    }
    if utf8_len_exceeds(chars.as_slice(), 128) {
        return Err("OCR language tag is invalid".to_owned());
    }
    let mut i: usize = 0;
    while i < chars.len()
        invariant
            i <= chars@.len(),
            chars@ == t@,
            tag == Some(t),
            trim(t@).len() > 0,
            !(utf8_len(t@) > 128),
            forall|k: int| 0 <= k < i ==> !is_control(#[trigger] chars@[k]),
        decreases chars.len() - i,
    {
        if control(chars[i]) {
            assert(is_control(t@[i as int]));
            return Err("OCR language tag is invalid".to_owned());
        }
        i = i + 1;
    }
    Ok(Some(string_of(chars.as_slice())))
}

/// The words of a line that hold more than white space, joined by spaces.
pub open spec fn spec_line_text(words: Seq<Seq<char>>) -> Seq<char>
    decreases words.len(),
{
    if words.len() == 0 {
        Seq::empty()
    } else if trim(words.last()).len() == 0 {
        spec_line_text(words.drop_last())
    } else if !has_text(words.drop_last()) {
        words.last()
    } else {
        spec_line_text(words.drop_last()) + seq![' '] + words.last()
    }
}

/// Whether some word holds more than white space.
pub open spec fn has_text(words: Seq<Seq<char>>) -> bool {
    exists|i: int| 0 <= i < words.len() && trim(#[trigger] words[i]).len() > 0
}

proof fn lemma_line_text_empty(words: Seq<Seq<char>>)
    requires
        !has_text(words),
    ensures
        spec_line_text(words).len() == 0,
    decreases words.len(),
{
    if words.len() > 0 {
        let init = words.drop_last();
        assert(!has_text(init)) by {
            if has_text(init) {
                let k = choose|k: int| 0 <= k < init.len() && trim(#[trigger] init[k]).len() > 0;
                assert(words[k] == init[k]);
            }
        }
        assert(trim(words[words.len() - 1]).len() == 0);
        lemma_line_text_empty(init);
    }
}

/// The text of a recognized line from its words.
pub fn line_text(words: &[String]) -> (r: String)
    ensures
        r@ == spec_line_text(strings_view(words@)),
{
    let mut text: Vec<char> = Vec::new();
    let mut any = false;
    let mut i: usize = 0;
    while i < words.len()
        invariant
            i <= words@.len(),
            text@ == spec_line_text(strings_view(words@).take(i as int)),
            any == has_text(strings_view(words@).take(i as int)),
        decreases words.len() - i,
    {
        let ghost before = strings_view(words@).take(i as int);
        let ghost after = strings_view(words@).take(i + 1);
        assert(after.drop_last() =~= before);
        assert(after.last() == words@[i as int]@);
        let word = chars_of(words[i].as_str());
        let trimmed = trim_chars(word.as_slice());
        assert(word@ == after.last());
        if trimmed.len() > 0 {
            proof {
                if !any {
                    lemma_line_text_empty(before);
                }
            }
            let ghost prefix = text@;
            if any {
                text.push(' ');
            }
            extend_chars(&mut text, word.as_slice());
            assert(text@ =~= spec_line_text(after));
            proof {
                assert(after[i as int] == words@[i as int]@);
            }
            any = true;
        }
        proof {
            if trimmed@.len() == 0 {
                assert(has_text(after) == has_text(before)) by {
                    if has_text(after) {
                        let k = choose|k: int| 0 <= k < after.len() && trim(#[trigger] after[k]).len() > 0;
                        if k < i {
                            assert(before[k] == after[k]);
                        }
                    }
                    if has_text(before) {
                        let k = choose|k: int| 0 <= k < before.len() && trim(#[trigger] before[k]).len() > 0;
                        assert(after[k] == before[k]);
                    }
                }
            } else if !any {
                assert(false);
            }
            if has_text(before) {
                let k = choose|k: int| 0 <= k < before.len() && trim(#[trigger] before[k]).len() > 0;
                assert(after[k] == before[k]);
            }
        }
        i = i + 1;
    }
    assert(strings_view(words@).take(words@.len() as int) =~= strings_view(words@));
    string_of(text.as_slice())
}

/// Refuses to recognize an image without pixels.
pub fn check_ocr_source(width: u32, height: u32) -> (r: Result<(), String>)
    ensures
        width == 0 || height == 0 ==> (r matches Err(e) && e@ == "cannot recognize an empty image"@),
        width != 0 && height != 0 ==> r is Ok,
{
    if width == 0 || height == 0 {
        return Err("cannot recognize an empty image".to_owned());
    }
    Ok(())
}

/// The margin around the image handed to recognition: 16 pixels, or less
/// when the engine's largest image (`maximum_dimension`, 0 for no limit) is
/// smaller.
pub fn ocr_padding(maximum_dimension: u32) -> (r: u32)
    ensures
        r == if maximum_dimension == 0 {
            16
        } else {
            crate::scroll::smaller(16, (maximum_dimension - 1) / 2)
        },
{
    if maximum_dimension == 0 {
        16
    } else {
        let half = (maximum_dimension - 1) / 2;
        if half < 16 {
            half
        } else {
            16
        }
    }
}

/// The largest the recognized content may be on either side, inside the
/// padding.
pub fn ocr_content_limit(maximum_dimension: u32, padding: u32) -> (r: u32)
    requires
        padding <= 16,
    ensures
        r == if maximum_dimension == 0 {
            u32::MAX as int
        } else {
            crate::scroll::larger(crate::scroll::larger(maximum_dimension - 2 * padding, 0), 1)
        },
{
    if maximum_dimension == 0 {
        u32::MAX
    } else if maximum_dimension > 2 * padding {
        maximum_dimension - 2 * padding
    } else {
        1
    }
}

/// The size of the image handed to recognition: the content with the
/// padding on every side; refused when a side would not fit in `u32`.
pub fn padded_recognition_size(content_width: u32, content_height: u32, padding: u32) -> (r: Result<(u32, u32), String>)
    requires
        padding <= 16,
    ensures
        content_width + 2 * padding > u32::MAX ==> (r matches Err(e) && e@
            == "OCR image padding would make the image too wide"@),
        content_width + 2 * padding <= u32::MAX && content_height + 2 * padding > u32::MAX ==> (r matches Err(e)
            && e@ == "OCR image padding would make the image too tall"@),
        content_width + 2 * padding <= u32::MAX && content_height + 2 * padding <= u32::MAX ==> r == Ok::<
            (u32, u32),
            String,
        >(((content_width + 2 * padding) as u32, (content_height + 2 * padding) as u32)),
{
    if content_width > u32::MAX - 2 * padding {
        return Err("OCR image padding would make the image too wide".to_owned());
    }
    if content_height > u32::MAX - 2 * padding {
        return Err("OCR image padding would make the image too tall".to_owned());
    }
    Ok((content_width + 2 * padding, content_height + 2 * padding))
}

} // verus!
