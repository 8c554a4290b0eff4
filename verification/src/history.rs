//! The rules of the screenshot history: what may be stored, how tags,
//! searches and batches are cleaned up, which files belong to the history,
//! which entries retention removes, and how an export is laid out.
use vstd::prelude::*;

use crate::text::chars_of;
use crate::text::control;
use crate::text::decimal;
use crate::text::extend_chars;
use crate::text::i64_decimal;
use crate::text::is_ascii_digit;
use crate::text::is_control;
use crate::text::lemma_decimal_digits;
use crate::text::signed_decimal;
use crate::text::string_of;
use crate::text::trim;
use crate::text::ascii_lower;
use crate::text::to_ascii_lower;
use crate::text::trim_chars;
use crate::text::u64_decimal;
use crate::text::utf8_len;
use crate::text::utf8_len_exceeds;
use crate::text::zero_padded;
use crate::text::zero_padded_decimal;

verus! {

/// How many entries the history keeps before retention removes the oldest.
pub const MAX_HISTORY_ITEMS: usize = 500;

/// How many bytes of images the history keeps before retention removes the
/// oldest.
pub const MAX_HISTORY_IMAGE_BYTES: u64 = 2147483648;

/// One screenshot as the history window lists it.
#[derive(Clone, Debug)]
pub struct HistoryItemPayload {
    pub id: i64,
    pub width: u32,
    pub height: u32,
    pub created_at_ms: i64,
    pub favorite: bool,
    pub ocr_text: Option<String>,
    pub tags: Vec<String>,
}

/// How much the history holds, and how much it may hold.
#[derive(Clone, Debug)]
pub struct HistoryUsagePayload {
    pub item_count: usize,
    pub image_bytes: u64,
    pub max_items: usize,
    pub max_image_bytes: u64,
}

/// Where an export went and how many screenshots it holds.
#[derive(Clone, Debug)]
pub struct HistoryExportPayload {
    pub directory: String,
    pub exported_count: usize,
}

/// Whether `r` holds what `s` describes, strings taken by their characters.
pub open spec fn optional_text_result(r: Result<Option<String>, String>, s: Result<Option<Seq<char>>, Seq<char>>) -> bool {
    match (r, s) {
        (Ok(None), Ok(None)) => true,
        (Ok(Some(a)), Ok(Some(b))) => a@ == b,
        (Err(a), Err(b)) => a@ == b,
        _ => false,
    }
}

/// Text trimmed of surrounding white space: none when nothing is left, an
/// error when more than `limit` bytes are.
pub open spec fn spec_bounded_text(text: Option<Seq<char>>, limit: nat, too_long: Seq<char>) -> Result<Option<Seq<char>>, Seq<char>> {
    match text {
        None => Ok(None),
        Some(t) => if trim(t).len() == 0 {
            Ok(None)
        } else if utf8_len(trim(t)) > limit {
            Err(too_long)
        } else {
            Ok(Some(trim(t)))
        },
    }
}

fn bounded_text(text: Option<&str>, limit: usize, too_long: &str) -> (r: Result<Option<String>, String>)
    ensures
        optional_text_result(
            r,
            spec_bounded_text(
                match text {
                    Some(t) => Some(t@),
                    None => None,
                },
                limit as nat,
                too_long@,
            ),
        ),
{
    match text {
        None => Ok(None),
        Some(t) => {
            let chars = chars_of(t);
            let trimmed = trim_chars(chars.as_slice());
            if trimmed.len() == 0 {
                return Ok(None);
            }
            if utf8_len_exceeds(trimmed.as_slice(), limit) {
                return Err(too_long.to_owned());
            }
            Ok(Some(string_of(trimmed.as_slice())))
        },
    }
}

/// The OCR text stored with a screenshot: trimmed, none when empty, and
/// refused beyond a million bytes.
pub fn normalize_ocr_text(ocr_text: Option<&str>) -> (r: Result<Option<String>, String>)
    ensures
        optional_text_result(
            r,
            spec_bounded_text(
                match ocr_text {
                    Some(t) => Some(t@),
                    None => None,
                },
                1_000_000,
                "OCR text is too large to save in screenshot history"@,
            ),
        ),
{
    bounded_text(ocr_text, 1_000_000, "OCR text is too large to save in screenshot history")
}

/// The search text of a history query: trimmed, none when empty, and
/// refused beyond 256 bytes.
pub fn normalized_query(query: Option<&str>) -> (r: Result<Option<String>, String>)
    ensures
        optional_text_result(
            r,
            spec_bounded_text(
                match query {
                    Some(t) => Some(t@),
                    None => None,
                },
                256,
                "history search query is too long"@,
            ),
        ),
{
    bounded_text(query, 256, "history search query is too long")
}

/// The `LIKE` pattern that finds `query` anywhere in a text.
pub fn search_pattern(query: &str) -> (r: String)
    ensures
        r@ == seq!['%'] + query@ + seq!['%'],
{
    let mut v: Vec<char> = Vec::new();
    v.push('%');
    let q = chars_of(query);
    extend_chars(&mut v, q.as_slice());
    v.push('%');
    string_of(v.as_slice())
}

/// A history image name: digits and dashes followed by `.png`.
pub open spec fn is_safe_image_name(name: Seq<char>) -> bool {
    &&& name.len() > 4
    &&& name.skip(name.len() - 4) == seq!['.', 'p', 'n', 'g']
    &&& forall|i: int| 0 <= i < name.len() - 4 ==> is_ascii_digit(#[trigger] name[i]) || name[i] == '-'
}

/// Whether `filename` can name a history image: it cannot point anywhere
/// but into the history's own directory.
pub fn is_safe_image_filename(filename: &str) -> (r: bool)
    ensures
        r == is_safe_image_name(filename@),
{
    let name = chars_of(filename);
    let n = name.len();
    if n <= 4 || name[n - 4] != '.' || name[n - 3] != 'p' || name[n - 2] != 'n' || name[n - 1] != 'g' {
        proof {
            if n > 4 && name@.skip(n - 4) == seq!['.', 'p', 'n', 'g'] {
                assert(name@.skip(n - 4)[0] == name@[n - 4]);
                assert(name@.skip(n - 4)[1] == name@[n - 3]);
                assert(name@.skip(n - 4)[2] == name@[n - 2]);
                assert(name@.skip(n - 4)[3] == name@[n - 1]);
            }
        }
        return false;
    }
    assert(name@.skip(n - 4) =~= seq!['.', 'p', 'n', 'g']);
    let mut i: usize = 0;
    while i < n - 4
        invariant
            i <= n - 4,
            n == name@.len(),
            n > 4,
            name@ == filename@,
            name@.skip(n - 4) == seq!['.', 'p', 'n', 'g'],
            forall|k: int| 0 <= k < i ==> is_ascii_digit(#[trigger] name@[k]) || name@[k] == '-',
        decreases n - 4 - i,
    {
        let c = name[i];
        if !(('0' <= c && c <= '9') || c == '-') {
            assert(!(is_ascii_digit(name@[i as int]) || name@[i as int] == '-'));
            return false;
        }
        i = i + 1;
    }
    true
}

/// The name a screenshot saved at `created_at_ms` gets, `sequence` telling
/// apart those saved in the same millisecond.
pub open spec fn spec_history_filename(created_at_ms: int, sequence: nat) -> Seq<char> {
    signed_decimal(created_at_ms) + seq!['-'] + decimal(sequence) + seq!['.', 'p', 'n', 'g']
}

pub fn history_filename(created_at_ms: i64, sequence: u64) -> (r: String)
    ensures
        r@ == spec_history_filename(created_at_ms as int, sequence as nat),
{
    let mut v = i64_decimal(created_at_ms);
    v.push('-');
    let s = u64_decimal(sequence);
    extend_chars(&mut v, s.as_slice());
    v.push('.');
    v.push('p');
    v.push('n');
    v.push('g');
    assert(v@ =~= spec_history_filename(created_at_ms as int, sequence as nat));
    string_of(v.as_slice())
}

/// Every name the history gives a screenshot is one it accepts back.
pub proof fn lemma_history_filenames_are_safe(created_at_ms: int, sequence: nat)
    ensures
        is_safe_image_name(spec_history_filename(created_at_ms, sequence)),
{
    let name = spec_history_filename(created_at_ms, sequence);
    let m = if created_at_ms < 0 { (-created_at_ms) as nat } else { created_at_ms as nat };
    lemma_decimal_digits(m);
    lemma_decimal_digits(sequence);
    let head = signed_decimal(created_at_ms);
    assert(name.skip(name.len() - 4) =~= seq!['.', 'p', 'n', 'g']);
    assert forall|i: int| 0 <= i < name.len() - 4 implies is_ascii_digit(#[trigger] name[i]) || name[i] == '-' by {
        if i < head.len() {
            if created_at_ms < 0 && i > 0 {
                assert(head[i] == decimal(m)[i - 1]);
            } else if created_at_ms >= 0 {
                assert(head[i] == decimal(m)[i]);
            }
        } else if i > head.len() {
            assert(name[i] == decimal(sequence)[i - head.len() - 1]);
        }
    }
}


/// The characters of each string.
pub open spec fn strings_view(v: Seq<String>) -> Seq<Seq<char>> {
    v.map_values(|s: String| s@)
}

/// `str::eq_ignore_ascii_case`: equal once ASCII letters are lowered.
pub open spec fn eq_ignore_ascii_case(a: Seq<char>, b: Seq<char>) -> bool {
    &&& a.len() == b.len()
    &&& forall|i: int| 0 <= i < a.len() ==> ascii_lower(#[trigger] a[i]) == ascii_lower(b[i])
}

/// A tag that may be stored: at most 48 characters, without commas (ASCII or
/// full-width) and without control characters.
pub open spec fn tag_allowed(t: Seq<char>) -> bool {
    &&& t.len() <= 48
    &&& !t.contains(',')
    &&& !t.contains('，')
    &&& forall|i: int| 0 <= i < t.len() ==> !is_control(#[trigger] t[i])
}

/// The tags kept from `tags`, in order: each trimmed, empty ones skipped,
/// and one that equals an earlier tag but for ASCII case dropped; none
/// when a tag is not allowed.
pub open spec fn tags_fold(tags: Seq<Seq<char>>) -> Option<Seq<Seq<char>>>
    decreases tags.len(),
{
    if tags.len() == 0 {
        Some(Seq::empty())
    } else {
        match tags_fold(tags.drop_last()) {
            None => None,
            Some(kept) => {
                let t = trim(tags.last());
                if t.len() == 0 {
                    Some(kept)
                } else if !tag_allowed(t) {
                    None
                } else if exists|k: int| 0 <= k < kept.len() && eq_ignore_ascii_case(#[trigger] kept[k], t) {
                    Some(kept)
                } else {
                    Some(kept.push(t))
                }
            },
        }
    }
}

pub open spec fn spec_normalize_tags(tags: Seq<Seq<char>>) -> Result<Seq<Seq<char>>, Seq<char>> {
    match tags_fold(tags) {
        None => Err(
            "each history tag must be at most 48 characters and cannot contain commas or control characters"@,
        ),
        Some(kept) => if kept.len() > 12 {
            Err("a screenshot can have at most 12 tags"@)
        } else {
            Ok(kept)
        },
    }
}

fn chars_eq_ignore_ascii_case(a: &[char], b: &[char]) -> (r: bool)
    ensures
        r == eq_ignore_ascii_case(a@, b@),
{
    if a.len() != b.len() {
        return false;
    }
    let mut i: usize = 0;
    while i < a.len()
        invariant
            i <= a.len() == b.len(),
            forall|k: int| 0 <= k < i ==> ascii_lower(#[trigger] a@[k]) == ascii_lower(b@[k]),
        decreases a.len() - i,
    {
        if to_ascii_lower(a[i]) != to_ascii_lower(b[i]) {
            return false;
        }
        i = i + 1;
    }
    true
}

fn tag_is_allowed(t: &[char]) -> (r: bool)
    ensures
        r == tag_allowed(t@),
{
    if t.len() > 48 {
        return false;
    }
    let mut i: usize = 0;
    while i < t.len()
        invariant
            i <= t.len(),
            forall|k: int| 0 <= k < i ==> t@[k] != ',' && t@[k] != '，' && !is_control(#[trigger] t@[k]),
        decreases t.len() - i,
    {
        let c = t[i];
        if c == ',' || c == '，' || control(c) {
            assert(t@[i as int] == c);
            if c == ',' {
                assert(t@.contains(','));
            } else if c == '，' {
                assert(t@.contains('，'));
            }
            return false;
        }
        i = i + 1;
    }
    assert(!t@.contains(',') && !t@.contains('，')) by {
        if t@.contains(',') {
            let k = choose|k: int| 0 <= k < t@.len() && t@[k] == ',';
            assert(t@[k] != ',');
        }
        if t@.contains('，') {
            let k = choose|k: int| 0 <= k < t@.len() && t@[k] == '，';
            assert(t@[k] != '，');
        }
    }
    true
}

/// The tags stored for a screenshot: trimmed, empty ones dropped, repeats
/// (ignoring ASCII case) dropped; refused when one is too long or holds a
/// comma or control character, or when more than twelve remain.
pub fn normalize_tags(tags: &[String]) -> (r: Result<Vec<String>, String>)
    ensures
        match spec_normalize_tags(strings_view(tags@)) {
            Ok(kept) => r matches Ok(v) && strings_view(v@) == kept,
            Err(message) => r matches Err(e) && e@ == message,
        },
{
    let mut normalized: Vec<String> = Vec::new();
    let mut chars_kept: Vec<Vec<char>> = Vec::new();
    let mut i: usize = 0;
    while i < tags.len()
        invariant
            i <= tags@.len(),
            tags_fold(strings_view(tags@).take(i as int)) == Some(strings_view(normalized@)),
            chars_kept@.len() == normalized@.len(),
            forall|k: int| 0 <= k < chars_kept@.len() ==> (#[trigger] chars_kept@[k])@ == normalized@[k]@,
        decreases tags.len() - i,
    {
        let ghost kept = strings_view(normalized@);
        assert(strings_view(tags@).take(i + 1).drop_last() =~= strings_view(tags@).take(i as int));
        assert(strings_view(tags@).take(i + 1).last() == tags@[i as int]@);
        let raw = chars_of(tags[i].as_str());
        let t = trim_chars(raw.as_slice());
        if t.len() == 0 {
            i = i + 1;
            continue;
        }
        if !tag_is_allowed(t.as_slice()) {
            proof {
                lemma_tags_fold_none_stays(strings_view(tags@), i + 1);
            }
            return Err(
                "each history tag must be at most 48 characters and cannot contain commas or control characters".to_owned(),
            );
        }
        let mut seen = false;
        let mut k: usize = 0;
        while k < chars_kept.len()
            invariant
                k <= chars_kept@.len(),
                chars_kept@.len() == kept.len(),
                forall|j: int| 0 <= j < chars_kept@.len() ==> (#[trigger] chars_kept@[j])@ == kept[j],
                seen == exists|j: int| 0 <= j < k && eq_ignore_ascii_case(#[trigger] kept[j], t@),
            decreases chars_kept.len() - k,
        {
            let same = chars_eq_ignore_ascii_case(chars_kept[k].as_slice(), t.as_slice());
            if same {
                seen = true;
            }
            k = k + 1;
        }
        if !seen {
            let s = string_of(t.as_slice());
            normalized.push(s);
            chars_kept.push(t);
            assert(strings_view(normalized@) =~= kept.push(t@));
        }
        i = i + 1;
    }
    assert(strings_view(tags@).take(tags@.len() as int) =~= strings_view(tags@));
    if normalized.len() > 12 {
        return Err("a screenshot can have at most 12 tags".to_owned());
    }
    Ok(normalized)
}

proof fn lemma_tags_fold_none_stays(tags: Seq<Seq<char>>, i: int)
    requires
        0 <= i <= tags.len(),
        tags_fold(tags.take(i)) is None,
    ensures
        tags_fold(tags) is None,
    decreases tags.len() - i,
{
    if i < tags.len() {
        assert(tags.take(i + 1).drop_last() =~= tags.take(i));
        lemma_tags_fold_none_stays(tags, i + 1);
    } else {
        assert(tags.take(i) =~= tags);
    }
}

/// Tags as normalization leaves them: each trimmed, non-empty and allowed,
/// and none equal to an earlier one but for ASCII case.
pub open spec fn clean_tags(s: Seq<Seq<char>>) -> bool {
    forall|i: int|
        0 <= i < s.len() ==> {
            &&& trim(#[trigger] s[i]) == s[i]
            &&& s[i].len() > 0
            &&& tag_allowed(s[i])
            &&& forall|j: int| 0 <= j < i ==> !eq_ignore_ascii_case(#[trigger] s[j], s[i])
        }
}

proof fn lemma_tags_fold_clean(tags: Seq<Seq<char>>)
    requires
        tags_fold(tags) is Some,
    ensures
        clean_tags(tags_fold(tags)->Some_0),
    decreases tags.len(),
{
    if tags.len() > 0 {
        lemma_tags_fold_clean(tags.drop_last());
        let kept = tags_fold(tags.drop_last())->Some_0;
        let t = trim(tags.last());
        crate::text::lemma_trim_idempotent(tags.last());
        if t.len() > 0 && tag_allowed(t) && !(exists|k: int| 0 <= k < kept.len() && eq_ignore_ascii_case(#[trigger] kept[k], t)) {
            let out = kept.push(t);
            assert forall|i: int| 0 <= i < out.len() implies {
                &&& trim(#[trigger] out[i]) == out[i]
                &&& out[i].len() > 0
                &&& tag_allowed(out[i])
                &&& forall|j: int| 0 <= j < i ==> !eq_ignore_ascii_case(#[trigger] out[j], out[i])
            } by {
                if i < kept.len() {
                    assert(out[i] == kept[i]);
                    assert forall|j: int| 0 <= j < i implies !eq_ignore_ascii_case(#[trigger] out[j], out[i]) by {
                        assert(out[j] == kept[j]);
                    }
                } else {
                    assert forall|j: int| 0 <= j < i implies !eq_ignore_ascii_case(#[trigger] out[j], out[i]) by {
                        assert(out[j] == kept[j]);
                    }
                }
            }
        }
    }
}

proof fn lemma_clean_tags_fold(s: Seq<Seq<char>>)
    requires
        clean_tags(s),
    ensures
        tags_fold(s) == Some(s),
    decreases s.len(),
{
    if s.len() > 0 {
        let rest = s.drop_last();
        assert(clean_tags(rest)) by {
            assert forall|i: int| 0 <= i < rest.len() implies {
                &&& trim(#[trigger] rest[i]) == rest[i]
                &&& rest[i].len() > 0
                &&& tag_allowed(rest[i])
                &&& forall|j: int| 0 <= j < i ==> !eq_ignore_ascii_case(#[trigger] rest[j], rest[i])
            } by {
                assert(rest[i] == s[i]);
                assert forall|j: int| 0 <= j < i implies !eq_ignore_ascii_case(#[trigger] rest[j], rest[i]) by {
                    assert(rest[j] == s[j]);
                }
            }
        }
        lemma_clean_tags_fold(rest);
        let last = s[s.len() - 1];
        assert(trim(last) == last);
        assert(!(exists|k: int| 0 <= k < rest.len() && eq_ignore_ascii_case(#[trigger] rest[k], last))) by {
            if exists|k: int| 0 <= k < rest.len() && eq_ignore_ascii_case(#[trigger] rest[k], last) {
                let k = choose|k: int| 0 <= k < rest.len() && eq_ignore_ascii_case(#[trigger] rest[k], last);
                assert(rest[k] == s[k]);
                assert(!eq_ignore_ascii_case(s[k], s[s.len() - 1]));
            }
        }
        assert(rest.push(last) =~= s);
    }
}

/// Normalizing tags a second time changes nothing: the tags a screenshot
/// keeps are accepted again, as they are, when they are saved once more.
pub proof fn lemma_normalized_tags_are_stable(tags: Seq<Seq<char>>)
    requires
        spec_normalize_tags(tags) is Ok,
    ensures
        spec_normalize_tags(spec_normalize_tags(tags)->Ok_0) == spec_normalize_tags(tags),
{
    lemma_tags_fold_clean(tags);
    lemma_clean_tags_fold(tags_fold(tags)->Some_0);
}

/// The tags joined with commas, as the database stores them.
pub open spec fn join_tags(tags: Seq<Seq<char>>) -> Seq<char>
    decreases tags.len(),
{
    if tags.len() == 0 {
        Seq::empty()
    } else if tags.len() == 1 {
        tags[0]
    } else {
        join_tags(tags.drop_last()) + seq![','] + tags.last()
    }
}

/// Reading `s` from the start: the comma-separated pieces finished so far
/// (empty ones skipped), and the piece still being read.
pub open spec fn split_state(s: Seq<char>) -> (Seq<Seq<char>>, Seq<char>)
    decreases s.len(),
{
    if s.len() == 0 {
        (Seq::empty(), Seq::empty())
    } else {
        let (done, current) = split_state(s.drop_last());
        if s.last() == ',' {
            (if current.len() > 0 { done.push(current) } else { done }, Seq::empty())
        } else {
            (done, current.push(s.last()))
        }
    }
}

/// The non-empty comma-separated pieces of `s`, in order.
pub open spec fn spec_decode_tags(s: Seq<char>) -> Seq<Seq<char>> {
    let (done, current) = split_state(s);
    if current.len() > 0 {
        done.push(current)
    } else {
        done
    }
}

/// The tags stored as `tags`: its non-empty comma-separated pieces.
pub fn decode_tags(tags: &str) -> (r: Vec<String>)
    ensures
        strings_view(r@) == spec_decode_tags(tags@),
{
    let s = chars_of(tags);
    let mut done: Vec<String> = Vec::new();
    let mut current: Vec<char> = Vec::new();
    let mut i: usize = 0;
    while i < s.len()
        invariant
            i <= s@.len(),
            (strings_view(done@), current@) == split_state(s@.take(i as int)),
        decreases s.len() - i,
    {
        assert(s@.take(i + 1).drop_last() =~= s@.take(i as int));
        let c = s[i];
        if c == ',' {
            if current.len() > 0 {
                let piece = string_of(current.as_slice());
                let ghost before = strings_view(done@);
                done.push(piece);
                assert(strings_view(done@) =~= before.push(current@));
            }
            current = Vec::new();
        } else {
            current.push(c);
        }
        i = i + 1;
    }
    assert(s@.take(s@.len() as int) =~= s@);
    if current.len() > 0 {
        let piece = string_of(current.as_slice());
        let ghost before = strings_view(done@);
        done.push(piece);
        assert(strings_view(done@) =~= before.push(current@));
    }
    done
}

/// The tags joined with commas.
pub fn encode_tags(tags: &[String]) -> (r: String)
    ensures
        r@ == join_tags(strings_view(tags@)),
{
    let mut v: Vec<char> = Vec::new();
    let mut i: usize = 0;
    while i < tags.len()
        invariant
            i <= tags@.len(),
            v@ == join_tags(strings_view(tags@).take(i as int)),
        decreases tags.len() - i,
    {
        let ghost before = v@;
        assert(strings_view(tags@).take(i + 1).drop_last() =~= strings_view(tags@).take(i as int));
        if i > 0 {
            v.push(',');
        }
        let t = chars_of(tags[i].as_str());
        extend_chars(&mut v, t.as_slice());
        assert(v@ =~= join_tags(strings_view(tags@).take(i + 1)));
        i = i + 1;
    }
    assert(strings_view(tags@).take(tags@.len() as int) =~= strings_view(tags@));
    string_of(v.as_slice())
}


/// Pieces that can be joined and split back apart: none is empty and none
/// holds a comma.
pub open spec fn joinable(tags: Seq<Seq<char>>) -> bool {
    forall|i: int| 0 <= i < tags.len() ==> (#[trigger] tags[i]).len() > 0 && !tags[i].contains(',')
}

proof fn lemma_split_without_comma(s: Seq<char>, t: Seq<char>)
    requires
        !t.contains(','),
    ensures
        split_state(s + t) == (split_state(s).0, split_state(s).1 + t),
    decreases t.len(),
{
    if t.len() == 0 {
        assert(s + t =~= s);
        assert(split_state(s).1 + t =~= split_state(s).1);
    } else {
        let u = t.drop_last();
        assert(!u.contains(',')) by {
            if u.contains(',') {
                let k = choose|k: int| 0 <= k < u.len() && u[k] == ',';
                assert(t[k] == ',');
            }
        }
        lemma_split_without_comma(s, u);
        assert((s + t).drop_last() =~= s + u);
        assert(t.last() != ',') by {
            if t.last() == ',' {
                assert(t[t.len() - 1] == ',');
            }
        }
        assert(split_state(s).1 + u + seq![t.last()] =~= split_state(s).1 + t);
    }
}

proof fn lemma_split_joined(tags: Seq<Seq<char>>)
    requires
        tags.len() >= 1,
        joinable(tags),
    ensures
        split_state(join_tags(tags)) == (tags.drop_last(), tags.last()),
    decreases tags.len(),
{
    if tags.len() == 1 {
        lemma_split_without_comma(Seq::empty(), tags[0]);
        assert(Seq::<char>::empty() + tags[0] =~= tags[0]);
        assert(Seq::<char>::empty() + tags[0] =~= tags[0]);
        assert(tags.drop_last() =~= Seq::<Seq<char>>::empty());
    } else {
        let init = tags.drop_last();
        assert(joinable(init)) by {
            assert forall|i: int| 0 <= i < init.len() implies (#[trigger] init[i]).len() > 0 && !init[i].contains(',') by {
                assert(init[i] == tags[i]);
            }
        }
        lemma_split_joined(init);
        let head = join_tags(init) + seq![','];
        assert(head.drop_last() =~= join_tags(init));
        assert(tags.last() == tags[tags.len() - 1]);
        lemma_split_without_comma(head, tags.last());
        assert(init.drop_last().push(init.last()) =~= init);
        assert(Seq::<char>::empty() + tags.last() =~= tags.last());
    }
}

/// Tags stored with `set_tags` are listed back as they were stored: joining
/// normalized tags with commas and splitting the text again gives them back.
pub proof fn lemma_stored_tags_read_back(tags: Seq<Seq<char>>)
    requires
        spec_normalize_tags(tags) is Ok,
    ensures
        spec_decode_tags(join_tags(spec_normalize_tags(tags)->Ok_0)) == spec_normalize_tags(tags)->Ok_0,
{
    let kept = spec_normalize_tags(tags)->Ok_0;
    lemma_tags_fold_joinable(tags);
    if kept.len() == 0 {
        assert(split_state(Seq::<char>::empty()) == (Seq::<Seq<char>>::empty(), Seq::<char>::empty()));
    } else {
        lemma_split_joined(kept);
        assert(kept.drop_last().push(kept.last()) =~= kept);
    }
}

proof fn lemma_tags_fold_joinable(tags: Seq<Seq<char>>)
    requires
        tags_fold(tags) is Some,
    ensures
        joinable(tags_fold(tags)->0),
    decreases tags.len(),
{
    if tags.len() > 0 {
        lemma_tags_fold_joinable(tags.drop_last());
    }
}


/// The ids in order of first appearance, each once.
pub open spec fn first_occurrences(ids: Seq<i64>) -> Seq<i64>
    decreases ids.len(),
{
    if ids.len() == 0 {
        Seq::empty()
    } else {
        let kept = first_occurrences(ids.drop_last());
        if kept.contains(ids.last()) {
            kept
        } else {
            kept.push(ids.last())
        }
    }
}

/// The ids a batch action works on: refused when one is not positive, when
/// none is given, or when more than 200 distinct ids are.
pub open spec fn spec_normalize_batch_ids(ids: Seq<i64>) -> Result<Seq<i64>, Seq<char>> {
    if exists|i: int| 0 <= i < ids.len() && ids[i] <= 0 {
        Err("history entry id must be positive"@)
    } else if first_occurrences(ids).len() == 0 {
        Err("select at least one history entry"@)
    } else if first_occurrences(ids).len() > 200 {
        Err("batch history actions are limited to 200 entries"@)
    } else {
        Ok(first_occurrences(ids))
    }
}

pub fn normalize_batch_ids(ids: Vec<i64>) -> (r: Result<Vec<i64>, String>)
    ensures
        match spec_normalize_batch_ids(ids@) {
            Ok(kept) => r matches Ok(v) && v@ == kept,
            Err(message) => r matches Err(e) && e@ == message,
        },
{
    let mut normalized: Vec<i64> = Vec::new();
    let mut i: usize = 0;
    while i < ids.len()
        invariant
            i <= ids@.len(),
            normalized@ == first_occurrences(ids@.take(i as int)),
            forall|k: int| 0 <= k < i ==> ids@[k] > 0,
        decreases ids.len() - i,
    {
        assert(ids@.take(i + 1).drop_last() =~= ids@.take(i as int));
        let id = ids[i];
        if id <= 0 {
            return Err("history entry id must be positive".to_owned());
        }
        let mut seen = false;
        let mut k: usize = 0;
        while k < normalized.len()
            invariant
                k <= normalized@.len(),
                seen == exists|j: int| 0 <= j < k && normalized@[j] == id,
            decreases normalized.len() - k,
        {
            if normalized[k] == id {
                seen = true;
            }
            k = k + 1;
        }
        if !seen {
            normalized.push(id);
        }
        i = i + 1;
    }
    assert(ids@.take(ids@.len() as int) =~= ids@);
    if normalized.len() == 0 {
        return Err("select at least one history entry".to_owned());
    }
    if normalized.len() > 200 {
        return Err("batch history actions are limited to 200 entries".to_owned());
    }
    Ok(normalized)
}

proof fn lemma_push_contains(s: Seq<i64>, a: i64, x: i64)
    ensures
        s.push(a).contains(x) <==> (s.contains(x) || x == a),
{
    if s.contains(x) {
        let k = choose|k: int| 0 <= k < s.len() && s[k] == x;
        assert(s.push(a)[k] == x);
    }
    if x == a {
        assert(s.push(a)[s.len() as int] == x);
    }
    if s.push(a).contains(x) && x != a {
        let k = choose|k: int| 0 <= k < s.push(a).len() && s.push(a)[k] == x;
        assert(k < s.len());
        assert(s[k] == x);
    }
}

proof fn lemma_first_occurrences(ids: Seq<i64>)
    ensures
        forall|i: int, j: int| 0 <= i < j < first_occurrences(ids).len() ==> first_occurrences(ids)[i] != first_occurrences(ids)[j],
        forall|x: i64| first_occurrences(ids).contains(x) <==> ids.contains(x),
    decreases ids.len(),
{
    if ids.len() == 0 {
        assert forall|x: i64| first_occurrences(ids).contains(x) <==> ids.contains(x) by {
            if ids.contains(x) {
                let k = choose|k: int| 0 <= k < ids.len() && ids[k] == x;
            }
        }
    } else {
        let init = ids.drop_last();
        let last = ids.last();
        let kept = first_occurrences(init);
        lemma_first_occurrences(init);
        assert(ids =~= init.push(last));
        assert forall|x: i64| first_occurrences(ids).contains(x) <==> ids.contains(x) by {
            lemma_push_contains(init, last, x);
            lemma_push_contains(kept, last, x);
        }
        if !kept.contains(last) {
            assert forall|i: int, j: int| 0 <= i < j < first_occurrences(ids).len() implies first_occurrences(ids)[i]
                != first_occurrences(ids)[j] by {
                if j == kept.len() {
                    assert(first_occurrences(ids)[i] == kept[i]);
                    if kept[i] == last {
                        assert(kept.contains(last));
                    }
                }
            }
        }
    }
}

/// A batch action touches every id it was given exactly once: the ids it
/// works on are distinct and are exactly those given.
pub proof fn lemma_batch_ids_distinct_and_complete(ids: Seq<i64>)
    requires
        spec_normalize_batch_ids(ids) is Ok,
    ensures
        forall|i: int, j: int|
            0 <= i < j < spec_normalize_batch_ids(ids)->Ok_0.len() ==> spec_normalize_batch_ids(ids)->Ok_0[i]
                != spec_normalize_batch_ids(ids)->Ok_0[j],
        forall|x: i64| spec_normalize_batch_ids(ids)->Ok_0.contains(x) <==> ids.contains(x),
{
    lemma_first_occurrences(ids);
}

/// A CSV field: quoted, with each quote inside doubled.
pub open spec fn csv_escaped(value: Seq<char>) -> Seq<char>
    decreases value.len(),
{
    if value.len() == 0 {
        Seq::empty()
    } else if value.last() == '"' {
        csv_escaped(value.drop_last()) + seq!['"', '"']
    } else {
        csv_escaped(value.drop_last()).push(value.last())
    }
}

pub open spec fn spec_csv_field(value: Seq<char>) -> Seq<char> {
    seq!['"'] + csv_escaped(value) + seq!['"']
}

/// The text inside a quoted CSV field read as RFC 4180 reads it: a doubled
/// quote stands for one quote, and a quote on its own ends nothing here,
/// so the text is not a field's contents.
pub open spec fn csv_unescaped(s: Seq<char>) -> Option<Seq<char>>
    decreases s.len(),
{
    if s.len() == 0 {
        Some(Seq::empty())
    } else if s[0] == '"' {
        if s.len() >= 2 && s[1] == '"' {
            match csv_unescaped(s.skip(2)) {
                Some(v) => Some(seq!['"'] + v),
                None => None,
            }
        } else {
            None
        }
    } else {
        match csv_unescaped(s.skip(1)) {
            Some(v) => Some(seq![s[0]] + v),
            None => None,
        }
    }
}

/// The value of one quoted CSV field, or none when `field` is not one.
pub open spec fn csv_read_field(field: Seq<char>) -> Option<Seq<char>> {
    if field.len() >= 2 && field[0] == '"' && field.last() == '"' {
        csv_unescaped(field.subrange(1, field.len() - 1))
    } else {
        None
    }
}

proof fn lemma_csv_escaped_append(a: Seq<char>, b: Seq<char>)
    ensures
        csv_escaped(a + b) == csv_escaped(a) + csv_escaped(b),
    decreases b.len(),
{
    if b.len() > 0 {
        lemma_csv_escaped_append(a, b.drop_last());
        assert((a + b).drop_last() =~= a + b.drop_last());
        assert((a + b).last() == b.last());
        if b.last() == '"' {
            assert(csv_escaped(a) + csv_escaped(b) =~= csv_escaped(a) + csv_escaped(b.drop_last()) + seq!['"', '"']);
        } else {
            assert(csv_escaped(a) + csv_escaped(b) =~= (csv_escaped(a) + csv_escaped(b.drop_last())).push(b.last()));
        }
    } else {
        assert(a + b =~= a);
        assert(csv_escaped(a) + csv_escaped(b) =~= csv_escaped(a));
    }
}

proof fn lemma_csv_unescapes(v: Seq<char>)
    ensures
        csv_unescaped(csv_escaped(v)) == Some(v),
    decreases v.len(),
{
    if v.len() > 0 {
        let first = seq![v[0]];
        let rest = v.skip(1);
        assert(first + rest =~= v);
        lemma_csv_escaped_append(first, rest);
        assert(first.drop_last() =~= Seq::<char>::empty());
        assert(csv_escaped(Seq::<char>::empty()) == Seq::<char>::empty());
        assert(csv_escaped(first.drop_last()) == Seq::<char>::empty());
        assert(first.last() == v[0]);
        lemma_csv_unescapes(rest);
        let e = csv_escaped(v);
        if v[0] == '"' {
            assert(csv_escaped(first) =~= seq!['"', '"']);
            assert(e.skip(2) =~= csv_escaped(rest));
            assert(seq!['"'] + rest =~= v);
        } else {
            assert(csv_escaped(first) =~= seq![v[0]]);
            assert(e.skip(1) =~= csv_escaped(rest));
            assert(seq![v[0]] + rest =~= v);
        }
    }
}

/// A quoted field reads back as the value it was made from, commas, quotes
/// and line breaks included.
pub proof fn lemma_csv_field_reads_back(value: Seq<char>)
    ensures
        csv_read_field(spec_csv_field(value)) == Some(value),
{
    let field = spec_csv_field(value);
    assert(field.subrange(1, field.len() - 1) =~= csv_escaped(value));
    lemma_csv_unescapes(value);
}

fn csv_field_chars(value: &[char]) -> (r: Vec<char>)
    ensures
        r@ == spec_csv_field(value@),
{
    let mut v: Vec<char> = Vec::new();
    v.push('"');
    let mut i: usize = 0;
    while i < value.len()
        invariant
            i <= value@.len(),
            v@ == seq!['"'] + csv_escaped(value@.take(i as int)),
        decreases value.len() - i,
    {
        assert(value@.take(i + 1).drop_last() =~= value@.take(i as int));
        if value[i] == '"' {
            v.push('"');
            v.push('"');
        } else {
            v.push(value[i]);
        }
        i = i + 1;
        assert(v@ =~= seq!['"'] + csv_escaped(value@.take(i as int)));
    }
    assert(value@.take(value@.len() as int) =~= value@);
    v.push('"');
    v
}

/// `value` as one quoted CSV field.
pub fn csv_field(value: &str) -> (r: String)
    ensures
        r@ == spec_csv_field(value@),
{
    let v = chars_of(value);
    let f = csv_field_chars(v.as_slice());
    string_of(f.as_slice())
}

/// A stored screenshot as an export reads it.
#[derive(Clone, Debug)]
pub struct HistoryEntry {
    pub id: i64,
    pub filename: String,
    pub width: u32,
    pub height: u32,
    pub created_at_ms: i64,
    pub favorite: bool,
    pub ocr_text: Option<String>,
    pub tags: Vec<String>,
}

/// The name of the `position`-th exported image: the position padded to
/// three digits, then the entry's id.
pub open spec fn spec_export_filename(position: nat, id: int) -> Seq<char> {
    zero_padded(position, 3) + seq!['-'] + signed_decimal(id) + seq!['.', 'p', 'n', 'g']
}

pub fn export_filename(position: u64, id: i64) -> (r: String)
    ensures
        r@ == spec_export_filename(position as nat, id as int),
{
    let mut v = zero_padded_decimal(position, 3);
    v.push('-');
    let d = i64_decimal(id);
    extend_chars(&mut v, d.as_slice());
    v.push('.');
    v.push('p');
    v.push('n');
    v.push('g');
    assert(v@ =~= spec_export_filename(position as nat, id as int));
    string_of(v.as_slice())
}

/// The first line of an export's `metadata.csv`, after a byte-order mark.
pub open spec fn export_header() -> Seq<char> {
    seq!['\u{feff}'] + "id,filename,width,height,created_at_ms,favorite,tags,ocr_text\r\n"@
}

/// The line of `metadata.csv` for `entry`, exported as `exported_filename`.
pub open spec fn spec_export_row(entry: HistoryEntry, exported_filename: Seq<char>) -> Seq<char> {
    signed_decimal(entry.id as int) + seq![','] + spec_csv_field(exported_filename) + seq![','] + decimal(
        entry.width as nat,
    ) + seq![','] + decimal(entry.height as nat) + seq![','] + signed_decimal(entry.created_at_ms as int) + seq![
        ',',
    ] + seq![if entry.favorite { '1' } else { '0' }] + seq![','] + spec_csv_field(join_tags(strings_view(entry.tags@)))
        + seq![','] + spec_csv_field(
        match entry.ocr_text {
            Some(t) => t@,
            None => Seq::empty(),
        },
    ) + seq!['\r', '\n']
}

fn push_str(v: &mut Vec<char>, s: &str)
    ensures
        final(v)@ == old(v)@ + s@,
{
    let c = chars_of(s);
    extend_chars(v, c.as_slice());
}

fn export_row(entry: &HistoryEntry, exported_filename: &str) -> (r: Vec<char>)
    ensures
        r@ == spec_export_row(*entry, exported_filename@),
{
    let mut v = i64_decimal(entry.id);
    v.push(',');
    let f = csv_field(exported_filename);
    push_str(&mut v, f.as_str());
    v.push(',');
    let w = u64_decimal(entry.width as u64);
    extend_chars(&mut v, w.as_slice());
    v.push(',');
    let h = u64_decimal(entry.height as u64);
    extend_chars(&mut v, h.as_slice());
    v.push(',');
    let c = i64_decimal(entry.created_at_ms);
    extend_chars(&mut v, c.as_slice());
    v.push(',');
    v.push(if entry.favorite { '1' } else { '0' });
    v.push(',');
    let tags = encode_tags(entry.tags.as_slice());
    let t = csv_field(tags.as_str());
    push_str(&mut v, t.as_str());
    v.push(',');
    let o = match &entry.ocr_text {
        Some(text) => csv_field(text.as_str()),
        None => {
            proof {
                reveal_strlit("");
            }
            csv_field("")
        },
    };
    push_str(&mut v, o.as_str());
    v.push('\r');
    v.push('\n');
    assert(v@ =~= spec_export_row(*entry, exported_filename@));
    v
}

/// The file names and `metadata.csv` of an export of `entries`, in order.
pub open spec fn spec_export_metadata(entries: Seq<HistoryEntry>) -> Seq<char>
    decreases entries.len(),
{
    if entries.len() == 0 {
        export_header()
    } else {
        spec_export_metadata(entries.drop_last()) + spec_export_row(
            entries.last(),
            spec_export_filename(entries.len(), entries.last().id as int),
        )
    }
}

/// Lays out an export: the name each image is copied to, and the text of
/// `metadata.csv` describing them.
pub fn export_layout(entries: &[HistoryEntry]) -> (r: (Vec<String>, String))
    requires
        entries@.len() < u64::MAX,
    ensures
        r.0@.len() == entries@.len(),
        forall|i: int| 0 <= i < entries@.len() ==> (#[trigger] r.0@[i])@ == spec_export_filename((i + 1) as nat, entries@[i].id as int),
        r.1@ == spec_export_metadata(entries@),
{
    let mut names: Vec<String> = Vec::new();
    let mut text: Vec<char> = Vec::new();
    push_str(&mut text, "\u{feff}id,filename,width,height,created_at_ms,favorite,tags,ocr_text\r\n");
    proof {
        reveal_strlit("\u{feff}id,filename,width,height,created_at_ms,favorite,tags,ocr_text\r\n");
        reveal_strlit("id,filename,width,height,created_at_ms,favorite,tags,ocr_text\r\n");
        assert(text@ =~= export_header());
        assert(entries@.take(0) =~= Seq::<HistoryEntry>::empty());
    }
    let mut i: usize = 0;
    while i < entries.len()
        invariant
            i <= entries@.len(),
            entries@.len() < u64::MAX,
            names@.len() == i,
            forall|k: int| 0 <= k < i ==> (#[trigger] names@[k])@ == spec_export_filename((k + 1) as nat, entries@[k].id as int),
            text@ == spec_export_metadata(entries@.take(i as int)),
        decreases entries.len() - i,
    {
        assert(entries@.take(i + 1).drop_last() =~= entries@.take(i as int));
        let entry = &entries[i];
        let name = export_filename((i + 1) as u64, entry.id);
        let row = export_row(entry, name.as_str());
        extend_chars(&mut text, row.as_slice());
        names.push(name);
        i = i + 1;
    }
    assert(entries@.take(entries@.len() as int) =~= entries@);
    (names, string_of(text.as_slice()))
}

/// The name of the directory an export made at `timestamp` goes to; the
/// `sequence`-th retry gets a numbered suffix.
pub open spec fn spec_export_directory_name(timestamp: int, sequence: nat) -> Seq<char> {
    "SnapRust-"@ + signed_decimal(timestamp) + if sequence == 0 {
        Seq::empty()
    } else {
        seq!['-'] + decimal(sequence)
    }
}

pub fn export_directory_name(timestamp: i64, sequence: u32) -> (r: String)
    ensures
        r@ == spec_export_directory_name(timestamp as int, sequence as nat),
{
    let mut v: Vec<char> = Vec::new();
    push_str(&mut v, "SnapRust-");
    let t = i64_decimal(timestamp);
    extend_chars(&mut v, t.as_slice());
    if sequence != 0 {
        v.push('-');
        let s = u64_decimal(sequence as u64);
        extend_chars(&mut v, s.as_slice());
    }
    assert(v@ =~= spec_export_directory_name(timestamp as int, sequence as nat));
    string_of(v.as_slice())
}


/// What retention needs to know of a stored screenshot.
#[derive(Clone, Copy, Debug, PartialEq, Eq, Structural)]
pub struct RetentionEntry {
    pub id: i64,
    pub favorite: bool,
    pub image_bytes: u64,
}

/// The image bytes of all entries, summed without going past `u64::MAX`.
pub open spec fn saturating_total(entries: Seq<RetentionEntry>) -> nat
    decreases entries.len(),
{
    if entries.len() == 0 {
        0
    } else {
        let total = saturating_total(entries.drop_last()) + entries.last().image_bytes;
        if total > u64::MAX {
            u64::MAX as nat
        } else {
            total as nat
        }
    }
}

/// The entries retention deletes, walking from entry `i` with `items`
/// entries and `bytes` image bytes left: the unfavorited ones, oldest
/// first, until both limits are met.
pub open spec fn retention_from(
    entries: Seq<RetentionEntry>,
    i: int,
    items: int,
    bytes: int,
    max_items: int,
    max_bytes: int,
) -> Seq<i64>
    decreases entries.len() - i,
{
    if i < 0 || i >= entries.len() {
        Seq::empty()
    } else if entries[i].favorite {
        retention_from(entries, i + 1, items, bytes, max_items, max_bytes)
    } else if items <= max_items && bytes <= max_bytes {
        Seq::empty()
    } else {
        seq![entries[i].id] + retention_from(
            entries,
            i + 1,
            larger(items - 1, 0),
            larger(bytes - entries[i].image_bytes, 0),
            max_items,
            max_bytes,
        )
    }
}

/// How many entries and image bytes are left when that walk ends.
pub open spec fn retention_left(
    entries: Seq<RetentionEntry>,
    i: int,
    items: int,
    bytes: int,
    max_items: int,
    max_bytes: int,
) -> (int, int)
    decreases entries.len() - i,
{
    if i < 0 || i >= entries.len() {
        (items, bytes)
    } else if entries[i].favorite {
        retention_left(entries, i + 1, items, bytes, max_items, max_bytes)
    } else if items <= max_items && bytes <= max_bytes {
        (items, bytes)
    } else {
        retention_left(
            entries,
            i + 1,
            larger(items - 1, 0),
            larger(bytes - entries[i].image_bytes, 0),
            max_items,
            max_bytes,
        )
    }
}

pub open spec fn larger(a: int, b: int) -> int {
    if a >= b {
        a
    } else {
        b
    }
}

/// The ids of the unfavorited entries from entry `i` on, oldest first.
pub open spec fn unfavorited_from(entries: Seq<RetentionEntry>, i: int) -> Seq<i64>
    decreases entries.len() - i,
{
    if i < 0 || i >= entries.len() {
        Seq::empty()
    } else if entries[i].favorite {
        unfavorited_from(entries, i + 1)
    } else {
        seq![entries[i].id] + unfavorited_from(entries, i + 1)
    }
}

/// The entries to delete so the history holds at most `max_items` entries
/// and `max_bytes` image bytes, `entries` being oldest first.
pub open spec fn spec_retention_plan(entries: Seq<RetentionEntry>, max_items: int, max_bytes: int) -> Seq<i64> {
    retention_from(entries, 0, entries.len() as int, saturating_total(entries) as int, max_items, max_bytes)
}

/// Which entries retention deletes, in the order it deletes them.
pub fn retention_plan(entries: &[RetentionEntry], maximum_items: usize, maximum_image_bytes: u64) -> (r: Vec<i64>)
    ensures
        r@ == spec_retention_plan(entries@, maximum_items as int, maximum_image_bytes as int),
{
    let mut total: u64 = 0;
    let mut k: usize = 0;
    while k < entries.len()
        invariant
            k <= entries@.len(),
            total == saturating_total(entries@.take(k as int)),
        decreases entries.len() - k,
    {
        assert(entries@.take(k + 1).drop_last() =~= entries@.take(k as int));
        let size = entries[k].image_bytes;
        total = if total > u64::MAX - size {
            u64::MAX
        } else {
            total + size
        };
        k = k + 1;
    }
    assert(entries@.take(entries@.len() as int) =~= entries@);
    let ghost whole = spec_retention_plan(entries@, maximum_items as int, maximum_image_bytes as int);
    let mut items: usize = entries.len();
    let mut bytes: u64 = total;
    let mut plan: Vec<i64> = Vec::new();
    let mut i: usize = 0;
    while i < entries.len()
        invariant
            i <= entries@.len(),
            plan@ + retention_from(entries@, i as int, items as int, bytes as int, maximum_items as int, maximum_image_bytes as int) == whole,
        ensures
            plan@ == whole,
        decreases entries.len() - i,
    {
        let entry = entries[i];
        proof {
            if i + 1 >= entries@.len() {
                assert(plan@ + Seq::<i64>::empty() =~= plan@);
            }
        }
        if !entry.favorite {
            if items <= maximum_items && bytes <= maximum_image_bytes {
                assert(retention_from(entries@, i as int, items as int, bytes as int, maximum_items as int, maximum_image_bytes as int) =~= Seq::<i64>::empty());
                assert(plan@ + Seq::<i64>::empty() =~= plan@);
                break;
            }
            let ghost rest = retention_from(
                entries@,
                i + 1,
                larger(items - 1, 0),
                larger(bytes - entry.image_bytes, 0),
                maximum_items as int,
                maximum_image_bytes as int,
            );
            assert(plan@.push(entry.id) + rest =~= plan@ + (seq![entry.id] + rest));
            plan.push(entry.id);
            items = if items > 0 {
                items - 1
            } else {
                0
            };
            bytes = if bytes > entry.image_bytes {
                bytes - entry.image_bytes
            } else {
                0
            };
        }
        i = i + 1;
    }
    plan
}

proof fn lemma_retention_walk(
    entries: Seq<RetentionEntry>,
    i: int,
    items: int,
    bytes: int,
    max_items: int,
    max_bytes: int,
)
    requires
        0 <= i <= entries.len(),
    ensures
        retention_from(entries, i, items, bytes, max_items, max_bytes).len() <= unfavorited_from(entries, i).len(),
        retention_from(entries, i, items, bytes, max_items, max_bytes) == unfavorited_from(entries, i).take(
            retention_from(entries, i, items, bytes, max_items, max_bytes).len() as int,
        ),
        retention_from(entries, i, items, bytes, max_items, max_bytes).len() < unfavorited_from(entries, i).len()
            ==> retention_left(entries, i, items, bytes, max_items, max_bytes).0 <= max_items && retention_left(
            entries,
            i,
            items,
            bytes,
            max_items,
            max_bytes,
        ).1 <= max_bytes,
    decreases entries.len() - i,
{
    if i < entries.len() {
        let next_items = larger(items - 1, 0);
        let next_bytes = larger(bytes - entries[i].image_bytes, 0);
        if entries[i].favorite {
            lemma_retention_walk(entries, i + 1, items, bytes, max_items, max_bytes);
        } else if items <= max_items && bytes <= max_bytes {
            assert(unfavorited_from(entries, i).take(0) =~= Seq::<i64>::empty());
        } else {
            lemma_retention_walk(entries, i + 1, next_items, next_bytes, max_items, max_bytes);
            let rest = retention_from(entries, i + 1, next_items, next_bytes, max_items, max_bytes);
            assert(seq![entries[i].id] + rest =~= (seq![entries[i].id] + unfavorited_from(entries, i + 1)).take(
                rest.len() + 1 as int,
            ));
        }
    } else {
        assert(unfavorited_from(entries, i).take(0) =~= Seq::<i64>::empty());
    }
}

/// Retention deletes the oldest unfavorited screenshots first and never a
/// favorite; when it stops before running out of unfavorited screenshots,
/// the history is within both limits.
pub proof fn lemma_retention_keeps_favorites_and_meets_limits(
    entries: Seq<RetentionEntry>,
    max_items: int,
    max_bytes: int,
)
    ensures
        spec_retention_plan(entries, max_items, max_bytes) == unfavorited_from(entries, 0).take(
            spec_retention_plan(entries, max_items, max_bytes).len() as int,
        ),
        spec_retention_plan(entries, max_items, max_bytes).len() < unfavorited_from(entries, 0).len() ==> ({
            let left = retention_left(entries, 0, entries.len() as int, saturating_total(entries) as int, max_items, max_bytes);
            left.0 <= max_items && left.1 <= max_bytes
        }),
{
    lemma_retention_walk(entries, 0, entries.len() as int, saturating_total(entries) as int, max_items, max_bytes);
}

/// What the history reports of its size: the entry count, the image bytes
/// summed without overflowing, and its limits.
pub fn history_usage(entries: &[RetentionEntry]) -> (r: HistoryUsagePayload)
    ensures
        r.item_count == entries@.len(),
        r.image_bytes == saturating_total(entries@),
        r.max_items == MAX_HISTORY_ITEMS,
        r.max_image_bytes == MAX_HISTORY_IMAGE_BYTES,
{
    let mut total: u64 = 0;
    let mut k: usize = 0;
    while k < entries.len()
        invariant
            k <= entries@.len(),
            total == saturating_total(entries@.take(k as int)),
        decreases entries.len() - k,
    {
        assert(entries@.take(k + 1).drop_last() =~= entries@.take(k as int));
        let size = entries[k].image_bytes;
        total = if total > u64::MAX - size {
            u64::MAX
        } else {
            total + size
        };
        k = k + 1;
    }
    assert(entries@.take(entries@.len() as int) =~= entries@);
    HistoryUsagePayload {
        item_count: entries.len(),
        image_bytes: total,
        max_items: MAX_HISTORY_ITEMS,
        max_image_bytes: MAX_HISTORY_IMAGE_BYTES,
    }
}


/// `Path::extension` of a file name: what follows its last `.`, unless
/// there is none, the name is `..`, or the only `.` starts the name.
pub open spec fn file_extension(name: Seq<char>) -> Option<Seq<char>> {
    if name == seq!['.', '.'] || !name.contains('.') {
        None
    } else {
        let dot = choose|d: int| 0 <= d < name.len() && name[d] == '.' && forall|k: int| d < k < name.len() ==> name[k] != '.';
        if dot == 0 {
            None
        } else {
            Some(name.skip(dot + 1))
        }
    }
}

fn extension_of(name: &[char]) -> (r: Option<Vec<char>>)
    ensures
        match file_extension(name@) {
            None => r is None,
            Some(e) => r matches Some(v) && v@ == e,
        },
{
    let n = name.len();
    if n == 2 && name[0] == '.' && name[1] == '.' {
        assert(name@ =~= seq!['.', '.']);
        return None;
    }
    let mut d: usize = n;
    while d > 0 && name[d - 1] != '.'
        invariant
            d <= n == name@.len(),
            forall|k: int| d <= k < n ==> name@[k] != '.',
        decreases d,
    {
        d = d - 1;
    }
    if d == 0 {
        assert(!name@.contains('.')) by {
            if name@.contains('.') {
                let k = choose|k: int| 0 <= k < name@.len() && name@[k] == '.';
                assert(name@[k] != '.');
            }
        }
        return None;
    }
    let dot = d - 1;
    assert(name@.contains('.')) by {
        assert(name@[dot as int] == '.');
    }
    assert(name@ != seq!['.', '.']) by {
        if name@ == seq!['.', '.'] {
            assert(n == 2 && name@[0] == '.' && name@[1] == '.');
        }
    }
    let ghost chosen = choose|e: int| 0 <= e < name@.len() && name@[e] == '.' && forall|k: int| e < k < name@.len() ==> name@[k] != '.';
    assert(0 <= dot < name@.len() && name@[dot as int] == '.' && forall|k: int| dot < k < name@.len() ==> name@[k] != '.');
    assert(chosen == dot) by {
        if chosen < dot {
            assert(name@[dot as int] != '.');
        } else if chosen > dot {
            assert(name@[chosen] != '.');
        }
    }
    if dot == 0 {
        return None;
    }
    let mut ext: Vec<char> = Vec::new();
    let mut k: usize = d;
    while k < n
        invariant
            d <= k <= n == name@.len(),
            ext@ == name@.subrange(d as int, k as int),
        decreases n - k,
    {
        ext.push(name[k]);
        k = k + 1;
        assert(ext@ =~= name@.subrange(d as int, k as int));
    }
    assert(name@.subrange(d as int, n as int) =~= name@.skip(d as int));
    Some(ext)
}

/// A file in a history directory that opening the history removes: a
/// temporary file left by an interrupted save or delete, or a history
/// image that no entry refers to.
pub open spec fn is_removable_file(name: Seq<char>, referenced: Seq<Seq<char>>) -> bool {
    ||| file_extension(name) == Some(seq!['t', 'm', 'p'])
    ||| file_extension(name) == Some(seq!['d', 'e', 'l', 'e', 't', 'i', 'n', 'g'])
    ||| file_extension(name) == Some(seq!['p', 'n', 'g']) && is_safe_image_name(name) && !referenced.contains(name)
}

fn chars_are(v: &[char], expected: &str) -> (r: bool)
    ensures
        r == (v@ == expected@),
{
    crate::text::eq_str(v, expected)
}

fn names_contain(names: &[String], name: &[char]) -> (r: bool)
    ensures
        r == strings_view(names@).contains(name@),
{
    let mut i: usize = 0;
    while i < names.len()
        invariant
            i <= names@.len(),
            forall|k: int| 0 <= k < i ==> names@[k]@ != name@,
        decreases names.len() - i,
    {
        let candidate = chars_of(names[i].as_str());
        if crate::text::eq_chars(candidate.as_slice(), name) {
            assert(strings_view(names@)[i as int] == name@);
            return true;
        }
        i = i + 1;
    }
    assert(!strings_view(names@).contains(name@)) by {
        if strings_view(names@).contains(name@) {
            let k = choose|k: int| 0 <= k < strings_view(names@).len() && strings_view(names@)[k] == name@;
            assert(names@[k]@ == name@);
        }
    }
    false
}

/// Whether opening the history removes the file `name` from a directory
/// whose referenced image names are `referenced`.
pub fn is_removable_history_file(name: &str, referenced: &[String]) -> (r: bool)
    ensures
        r == is_removable_file(name@, strings_view(referenced@)),
{
    let chars = chars_of(name);
    let extension = extension_of(chars.as_slice());
    proof {
        reveal_strlit("tmp");
        reveal_strlit("deleting");
        reveal_strlit("png");
        assert("tmp"@ =~= seq!['t', 'm', 'p']);
        assert("deleting"@ =~= seq!['d', 'e', 'l', 'e', 't', 'i', 'n', 'g']);
        assert("png"@ =~= seq!['p', 'n', 'g']);
    }
    match extension {
        None => false,
        Some(ext) => {
            if chars_are(ext.as_slice(), "tmp") {
                assert(ext@ =~= seq!['t', 'm', 'p']);
                return true;
            }
            if chars_are(ext.as_slice(), "deleting") {
                assert(ext@ =~= seq!['d', 'e', 'l', 'e', 't', 'i', 'n', 'g']);
                return true;
            }
            assert(ext@ != seq!['t', 'm', 'p']);
            assert(ext@ != seq!['d', 'e', 'l', 'e', 't', 'i', 'n', 'g']);
            if !chars_are(ext.as_slice(), "png") {
                assert(ext@ != seq!['p', 'n', 'g']);
                return false;
            }
            assert(ext@ =~= seq!['p', 'n', 'g']);
            is_safe_image_filename(name) && !names_contain(referenced, chars.as_slice())
        },
    }
}

/// What opening the history decides about its stored entries, given for
/// each whether its image file is present.
pub struct Reconciliation {
    /// Entries whose image is gone; their rows are deleted.
    pub missing_ids: Vec<i64>,
    /// Image names the images directory keeps.
    pub image_names: Vec<String>,
    /// Image names the thumbnails directory keeps.
    pub thumbnail_names: Vec<String>,
}

/// The stored file names that no missing entry shares.
pub open spec fn names_kept(names: Seq<Seq<char>>, missing: Seq<Seq<char>>) -> Seq<Seq<char>>
    decreases names.len(),
{
    if names.len() == 0 {
        Seq::empty()
    } else if missing.contains(names.last()) {
        names_kept(names.drop_last(), missing)
    } else {
        names_kept(names.drop_last(), missing).push(names.last())
    }
}

/// The ids and names of the entries whose image is gone.
pub open spec fn missing_entries(ids: Seq<i64>, names: Seq<Seq<char>>, present: Seq<bool>) -> (Seq<i64>, Seq<Seq<char>>)
    decreases ids.len(),
{
    if ids.len() == 0 {
        (Seq::empty(), Seq::empty())
    } else {
        let (i, n) = missing_entries(ids.drop_last(), names.drop_last(), present.drop_last());
        if present.last() {
            (i, n)
        } else {
            (i.push(ids.last()), n.push(names.last()))
        }
    }
}

/// Checks the stored entries, `ids[k]` named `names[k]`, and decides what
/// to keep; refused when a stored name is not a safe image name.
pub fn reconcile_entries(ids: &[i64], names: &[String], present: &[bool]) -> (r: Result<Reconciliation, String>)
    requires
        ids@.len() == names@.len(),
        ids@.len() == present@.len(),
    ensures
        (exists|k: int| 0 <= k < names@.len() && !is_safe_image_name(#[trigger] names@[k]@)) ==> (r matches Err(e)
            && e@ == "screenshot history contains an unsafe image filename"@),
        (forall|k: int| 0 <= k < names@.len() ==> is_safe_image_name(#[trigger] names@[k]@)) ==> (r matches Ok(plan)
            && plan.missing_ids@ == missing_entries(ids@, strings_view(names@), present@).0 && strings_view(
            plan.image_names@,
        ) == strings_view(names@) && strings_view(plan.thumbnail_names@) == names_kept(
            strings_view(names@),
            missing_entries(ids@, strings_view(names@), present@).1,
        )),
{
    let mut missing_ids: Vec<i64> = Vec::new();
    let mut missing_names: Vec<String> = Vec::new();
    let mut image_names: Vec<String> = Vec::new();
    let mut i: usize = 0;
    while i < names.len()
        invariant
            i <= names@.len(),
            ids@.len() == names@.len(),
            ids@.len() == present@.len(),
            forall|k: int| 0 <= k < i ==> is_safe_image_name(#[trigger] names@[k]@),
            (missing_ids@, strings_view(missing_names@)) == missing_entries(
                ids@.take(i as int),
                strings_view(names@).take(i as int),
                present@.take(i as int),
            ),
            strings_view(image_names@) == strings_view(names@).take(i as int),
        decreases names.len() - i,
    {
        assert(ids@.take(i + 1).drop_last() =~= ids@.take(i as int));
        assert(strings_view(names@).take(i + 1).drop_last() =~= strings_view(names@).take(i as int));
        assert(present@.take(i + 1).drop_last() =~= present@.take(i as int));
        if !is_safe_image_filename(names[i].as_str()) {
            return Err("screenshot history contains an unsafe image filename".to_owned());
        }
        let ghost before_images = strings_view(image_names@);
        let ghost before_missing = strings_view(missing_names@);
        image_names.push(names[i].clone());
        assert(strings_view(image_names@) =~= strings_view(names@).take(i + 1));
        if !present[i] {
            missing_ids.push(ids[i]);
            missing_names.push(names[i].clone());
            assert(strings_view(missing_names@) =~= before_missing.push(names@[i as int]@));
        }
        i = i + 1;
    }
    assert(ids@.take(ids@.len() as int) =~= ids@);
    assert(strings_view(names@).take(names@.len() as int) =~= strings_view(names@));
    assert(present@.take(present@.len() as int) =~= present@);
    let mut thumbnail_names: Vec<String> = Vec::new();
    let mut j: usize = 0;
    while j < image_names.len()
        invariant
            j <= image_names@.len(),
            strings_view(thumbnail_names@) == names_kept(strings_view(image_names@).take(j as int), strings_view(missing_names@)),
        decreases image_names.len() - j,
    {
        assert(strings_view(image_names@).take(j + 1).drop_last() =~= strings_view(image_names@).take(j as int));
        let name = chars_of(image_names[j].as_str());
        if !names_contain(missing_names.as_slice(), name.as_slice()) {
            let ghost before = strings_view(thumbnail_names@);
            thumbnail_names.push(string_of(name.as_slice()));
            assert(strings_view(thumbnail_names@) =~= before.push(image_names@[j as int]@));
        }
        j = j + 1;
    }
    assert(strings_view(image_names@).take(image_names@.len() as int) =~= strings_view(image_names@));
    Ok(Reconciliation { missing_ids, image_names, thumbnail_names })
}

} // verus!
