//! Pinned captures: the store of pinned images, addressed by window label,
//! and the geometry that keeps a pin window and its zoom display on screen.
use vstd::prelude::*;

use crate::raster::Raster;
use crate::raster::encode_png;
use crate::raster::spec_encode_png;
use crate::text::chars_of;
use crate::text::decimal;
use crate::text::digit_char;
use crate::text::eq_chars;
use crate::text::extend_chars;
use crate::text::string_of;
use crate::text::u64_decimal;

verus! {

/// The size of a pinned capture.
#[derive(Clone, Copy, Debug, PartialEq, Eq, Structural)]
pub struct PinMetadata {
    pub width: u32,
    pub height: u32,
}

struct PinnedImage {
    id: u64,
    png: Vec<u8>,
    width: u32,
    height: u32,
}

/// What the store holds for one label: the PNG file (empty when the pin
/// window draws the image itself) and the image's size.
pub type PinnedView = (Seq<u8>, u32, u32);

/// The window label of the `id`-th pin.
pub open spec fn pin_label(id: nat) -> Seq<char> {
    seq!['p', 'i', 'n', '-'] + decimal(id)
}

/// The pinned images, by window label.
pub struct PinStore {
    next_id: u64,
    images: Vec<PinnedImage>,
}

spec fn entries_view(images: Seq<PinnedImage>) -> Seq<(nat, PinnedView)> {
    images.map_values(|p: PinnedImage| (p.id as nat, (p.png@, p.width, p.height)))
}

/// The first entry labelled `label`.
pub open spec fn find_pin(entries: Seq<(nat, PinnedView)>, label: Seq<char>) -> Option<PinnedView>
    decreases entries.len(),
{
    if entries.len() == 0 {
        None
    } else if pin_label(entries[0].0) == label {
        Some(entries[0].1)
    } else {
        find_pin(entries.drop_first(), label)
    }
}

proof fn lemma_decimal_injective(a: nat, b: nat)
    requires
        decimal(a) == decimal(b),
    ensures
        a == b,
    decreases a,
{
    if a < 10 && b < 10 {
        assert(decimal(a)[0] == digit_char(a as int));
        assert(decimal(b)[0] == digit_char(b as int));
        assert((digit_char(a as int) as u32) == 48 + a);
        assert((digit_char(b as int) as u32) == 48 + b);
    } else if a >= 10 && b >= 10 {
        crate::text::lemma_decimal_digits(a / 10);
        crate::text::lemma_decimal_digits(b / 10);
        assert(decimal(a).last() == digit_char((a % 10) as int));
        assert(decimal(b).last() == digit_char((b % 10) as int));
        assert((digit_char((a % 10) as int) as u32) == 48 + a % 10);
        assert((digit_char((b % 10) as int) as u32) == 48 + b % 10);
        assert(decimal(a).drop_last() =~= decimal(a / 10));
        assert(decimal(b).drop_last() =~= decimal(b / 10));
        lemma_decimal_injective(a / 10, b / 10);
    } else if a < 10 {
        crate::text::lemma_decimal_digits(b / 10);
        assert(decimal(a).len() == 1);
    } else {
        crate::text::lemma_decimal_digits(a / 10);
        assert(decimal(b).len() == 1);
    }
}

proof fn lemma_find_pin_push(entries: Seq<(nat, PinnedView)>, entry: (nat, PinnedView), label: Seq<char>)
    ensures
        find_pin(entries.push(entry), label) == match find_pin(entries, label) {
            Some(v) => Some(v),
            None => if pin_label(entry.0) == label {
                Some(entry.1)
            } else {
                None
            },
        },
    decreases entries.len(),
{
    if entries.len() > 0 {
        assert(entries.push(entry).drop_first() =~= entries.drop_first().push(entry));
        assert(entries.push(entry)[0] == entries[0]);
        lemma_find_pin_push(entries.drop_first(), entry, label);
    } else {
        assert(entries.push(entry).drop_first() =~= Seq::<(nat, PinnedView)>::empty());
        assert(entries.push(entry)[0] == entry);
        assert(find_pin(Seq::<(nat, PinnedView)>::empty(), label) is None);
    }
}

proof fn lemma_find_pin_absent(entries: Seq<(nat, PinnedView)>, id: nat)
    requires
        forall|k: int| 0 <= k < entries.len() ==> (#[trigger] entries[k]).0 != id,
    ensures
        find_pin(entries, pin_label(id)) is None,
    decreases entries.len(),
{
    if entries.len() > 0 {
        if pin_label(entries[0].0) == pin_label(id) {
            assert(pin_label(entries[0].0).skip(4) =~= decimal(entries[0].0));
            assert(pin_label(id).skip(4) =~= decimal(id));
            lemma_decimal_injective(entries[0].0, id);
        }
        lemma_find_pin_absent(entries.drop_first(), id);
    }
}

impl PinStore {
    /// Every stored pin was issued by this store.
    pub closed spec fn wf(self) -> bool {
        forall|k: int| 0 <= k < self.images@.len() ==> 1 <= (#[trigger] self.images@[k]).id <= self.next_id
    }

    /// How many pins the store has issued.
    pub closed spec fn issued_count(self) -> nat {
        self.next_id as nat
    }

    /// What the store holds under `label`.
    pub closed spec fn lookup(self, label: Seq<char>) -> Option<PinnedView> {
        find_pin(entries_view(self.images@), label)
    }

    /// An empty store.
    pub fn new() -> (r: PinStore)
        ensures
            r.wf(),
            r.issued_count() == 0,
            forall|label: Seq<char>| r.lookup(label) is None,
    {
        PinStore { next_id: 0, images: Vec::new() }
    }

    /// How many pins the store has issued.
    pub fn issued(&self) -> (r: u64)
        ensures
            r == self.issued_count(),
    {
        self.next_id
    }

    fn next_label(&mut self) -> (r: (u64, String))
        requires
            old(self).wf(),
            old(self).issued_count() < u64::MAX,
        ensures
            final(self).wf(),
            r.0 == old(self).issued_count() + 1,
            final(self).issued_count() == r.0,
            r.1@ == pin_label(r.0 as nat),
            final(self).images@ == old(self).images@,
            forall|label: Seq<char>| #[trigger] final(self).lookup(label) == old(self).lookup(label),
    {
        self.next_id = self.next_id + 1;
        let id = self.next_id;
        let mut label: Vec<char> = Vec::new();
        label.push('p');
        label.push('i');
        label.push('n');
        label.push('-');
        let digits = u64_decimal(id);
        extend_chars(&mut label, digits.as_slice());
        assert(label@ =~= pin_label(id as nat));
        (id, string_of(label.as_slice()))
    }

    fn store(&mut self, id: u64, png: Vec<u8>, width: u32, height: u32)
        requires
            old(self).wf(),
            1 <= id <= old(self).issued_count(),
            forall|k: int| 0 <= k < old(self).images@.len() ==> (#[trigger] old(self).images@[k]).id < id,
        ensures
            final(self).wf(),
            final(self).issued_count() == old(self).issued_count(),
            old(self).lookup(pin_label(id as nat)) is None,
            final(self).lookup(pin_label(id as nat)) == Some((png@, width, height)),
            forall|label: Seq<char>|
                label != pin_label(id as nat) ==> #[trigger] final(self).lookup(label) == old(self).lookup(label),
    {
        let ghost before = entries_view(self.images@);
        let ghost entry = (id as nat, (png@, width, height));
        proof {
            assert forall|k: int| 0 <= k < before.len() implies (#[trigger] before[k]).0 != id as nat by {
                assert(before[k].0 == self.images@[k].id);
            }
            lemma_find_pin_absent(before, id as nat);
            assert forall|label: Seq<char>| true implies find_pin(before.push(entry), label) == match find_pin(before, label) {
                Some(v) => Some(v),
                None => if pin_label(entry.0) == label {
                    Some(entry.1)
                } else {
                    None
                },
            } by {
                lemma_find_pin_push(before, entry, label);
            }
        }
        self.images.push(PinnedImage { id, png, width, height });
        assert(entries_view(self.images@) =~= before.push(entry));
    }

    /// Pins `image`: its PNG file is kept under a new label, which is
    /// returned. The label is used up even when encoding fails.
    pub fn insert(&mut self, image: &Raster) -> (r: Result<String, String>)
        requires
            old(self).wf(),
            old(self).issued_count() < u64::MAX,
        ensures
            final(self).wf(),
            final(self).issued_count() == old(self).issued_count() + 1,
            match spec_encode_png(*image) {
                Ok(png) => r matches Ok(label) && label@ == pin_label(final(self).issued_count())
                    && old(self).lookup(label@) is None
                    && final(self).lookup(label@) == Some((png, image.spec_width() as u32, image.spec_height() as u32))
                    && forall|other: Seq<char>| other != label@ ==> #[trigger] final(self).lookup(other) == old(self).lookup(other),
                Err(message) => r matches Err(e) && e@ == message
                    && forall|other: Seq<char>| #[trigger] final(self).lookup(other) == old(self).lookup(other),
            },
    {
        let (id, label) = self.next_label();
        let png = match encode_png(image) {
            Ok(png) => png,
            Err(e) => return Err(e),
        };
        self.store(id, png, image.width(), image.height());
        Ok(label)
    }

    /// Registers a pin whose window draws `width` x `height` pixels itself,
    /// so no PNG file is kept, and returns its label.
    pub fn insert_native(&mut self, width: u32, height: u32) -> (r: String)
        requires
            old(self).wf(),
            old(self).issued_count() < u64::MAX,
        ensures
            final(self).wf(),
            final(self).issued_count() == old(self).issued_count() + 1,
            r@ == pin_label(final(self).issued_count()),
            old(self).lookup(r@) is None,
            final(self).lookup(r@) == Some((Seq::<u8>::empty(), width, height)),
            forall|other: Seq<char>| other != r@ ==> #[trigger] final(self).lookup(other) == old(self).lookup(other),
    {
        let (id, label) = self.next_label();
        let png: Vec<u8> = Vec::new();
        self.store(id, png, width, height);
        label
    }

    fn position(&self, label: &str) -> (r: Option<usize>)
        ensures
            match r {
                Some(i) => i < self.images@.len() && self.lookup(label@) == Some(
                    (self.images@[i as int].png@, self.images@[i as int].width, self.images@[i as int].height),
                ),
                None => self.lookup(label@) is None,
            },
    {
        let wanted = chars_of(label);
        let ghost all = entries_view(self.images@);
        assert(all.skip(0) =~= all);
        let mut i: usize = 0;
        while i < self.images.len()
            invariant
                i <= self.images@.len(),
                all == entries_view(self.images@),
                wanted@ == label@,
                find_pin(all, label@) == find_pin(all.skip(i as int), label@),
            decreases self.images.len() - i,
        {
            let digits = u64_decimal(self.images[i].id);
            let mut name: Vec<char> = Vec::new();
            name.push('p');
            name.push('i');
            name.push('n');
            name.push('-');
            extend_chars(&mut name, digits.as_slice());
            assert(name@ =~= pin_label(all[i as int].0));
            assert(all.skip(i as int)[0] == all[i as int]);
            if eq_chars(name.as_slice(), wanted.as_slice()) {
                return Some(i);
            }
            assert(all.skip(i as int).drop_first() =~= all.skip(i + 1));
            i = i + 1;
        }
        None
    }

    /// The size of the capture pinned as `label`.
    pub fn metadata(&self, label: &str) -> (r: Result<PinMetadata, String>)
        ensures
            match self.lookup(label@) {
                Some((_, width, height)) => r == Ok::<PinMetadata, String>(PinMetadata { width, height }),
                None => r matches Err(e) && e@ == "pinned capture does not exist: "@ + label@,
            },
    {
        match self.position(label) {
            Some(i) => Ok(PinMetadata { width: self.images[i].width, height: self.images[i].height }),
            None => Err(crate::text::concat_str("pinned capture does not exist: ", label)),
        }
    }

    /// The PNG file of the capture pinned as `label`.
    pub fn png(&self, label: &str) -> (r: Result<Vec<u8>, String>)
        ensures
            match self.lookup(label@) {
                Some((png, _, _)) => r matches Ok(bytes) && bytes@ == png,
                None => r matches Err(e) && e@ == "pinned capture does not exist: "@ + label@,
            },
    {
        match self.position(label) {
            Some(i) => Ok(self.images[i].png.clone()),
            None => Err(crate::text::concat_str("pinned capture does not exist: ", label)),
        }
    }

    /// Whether a capture is pinned as `label`.
    pub fn contains(&self, label: &str) -> (r: bool)
        ensures
            r == self.lookup(label@) is Some,
    {
        self.position(label).is_some()
    }

    /// Forgets the capture pinned as `label`, if any.
    pub fn remove(&mut self, label: &str)
        requires
            old(self).wf(),
        ensures
            final(self).wf(),
            final(self).issued_count() == old(self).issued_count(),
            final(self).lookup(label@) is None,
            forall|other: Seq<char>| other != label@ ==> #[trigger] final(self).lookup(other) == old(self).lookup(other),
    {
        let wanted = chars_of(label);
        let mut kept: Vec<PinnedImage> = Vec::new();
        let mut old_images: Vec<PinnedImage> = Vec::new();
        std::mem::swap(&mut old_images, &mut self.images);
        let ghost all = entries_view(old_images@);
        let ghost next_id = self.next_id;
        assert(all.skip(0) =~= all);
        assert(entries_view(kept@) =~= Seq::<(nat, PinnedView)>::empty());
        let mut i: usize = 0;
        while i < old_images.len()
            invariant
                i <= old_images@.len(),
                all == entries_view(old_images@),
                wanted@ == label@,
                forall|k: int| 0 <= k < old_images@.len() ==> 1 <= (#[trigger] old_images@[k]).id <= next_id,
                forall|k: int| 0 <= k < kept@.len() ==> 1 <= (#[trigger] kept@[k]).id <= next_id,
                find_pin(entries_view(kept@), label@) is None,
                forall|other: Seq<char>|
                    other != label@ ==> #[trigger] find_pin(all, other) == match find_pin(entries_view(kept@), other) {
                        Some(v) => Some(v),
                        None => find_pin(all.skip(i as int), other),
                    },
            decreases old_images.len() - i,
        {
            let digits = u64_decimal(old_images[i].id);
            let mut name: Vec<char> = Vec::new();
            name.push('p');
            name.push('i');
            name.push('n');
            name.push('-');
            extend_chars(&mut name, digits.as_slice());
            assert(name@ =~= pin_label(all[i as int].0));
            assert(all.skip(i as int)[0] == all[i as int]);
            assert(all.skip(i as int).drop_first() =~= all.skip(i + 1));
            let matches_label = eq_chars(name.as_slice(), wanted.as_slice());
            let entry = PinnedImage {
                id: old_images[i].id,
                png: old_images[i].png.clone(),
                width: old_images[i].width,
                height: old_images[i].height,
            };
            if !matches_label {
                let ghost before = entries_view(kept@);
                let ghost item = all[i as int];
                proof {
                    lemma_find_pin_push(before, item, label@);
                    assert forall|other: Seq<char>| true implies find_pin(before.push(item), other) == match find_pin(before, other) {
                        Some(v) => Some(v),
                        None => if pin_label(item.0) == other {
                            Some(item.1)
                        } else {
                            None
                        },
                    } by {
                        lemma_find_pin_push(before, item, other);
                    }
                }
                kept.push(entry);
                assert(entries_view(kept@) =~= before.push(item));
            }
            i = i + 1;
        }
        proof {
            assert forall|other: Seq<char>| other != label@ implies #[trigger] find_pin(entries_view(kept@), other) == find_pin(all, other) by {
                assert(all.skip(i as int).len() == 0);
            }
        }
        self.images = kept;
    }
}

impl Default for PinStore {
    fn default() -> (r: Self)
        ensures
            r.wf(),
            r.issued_count() == 0,
            forall|label: Seq<char>| r.lookup(label) is None,
    {
        PinStore::new()
    }
}

/// The position along one axis that keeps a pin window reachable: a window
/// that fits stays inside the work area; a larger (zoomed) one keeps at
/// least `minimum_visible` pixels (and at least one) on screen.
pub open spec fn native_axis_bounds(
    window_extent: int,
    work_start: int,
    work_extent: int,
    minimum_visible: int,
) -> (int, int) {
    if window_extent <= work_extent {
        (work_start, work_start + work_extent - window_extent)
    } else {
        let visible = crate::scroll::larger(
            crate::scroll::smaller(crate::scroll::smaller(minimum_visible, window_extent), work_extent),
            1,
        );
        (work_start + visible - window_extent, work_start + work_extent - visible)
    }
}

/// Where clamping puts a pin window along one axis: a window that fits the
/// work area ends up wholly inside it; a larger one keeps at least
/// `min(minimum_visible, window_extent, work_extent)` (and at least one) of
/// its pixels inside it; and a position that already does so is kept.
pub proof fn lemma_clamped_window_stays_reachable(
    desired: int,
    window_extent: int,
    work_start: int,
    work_extent: int,
    minimum_visible: int,
)
    requires
        window_extent >= 1,
        work_extent >= 1,
    ensures
        ({
            let (low, high) = native_axis_bounds(window_extent, work_start, work_extent, minimum_visible);
            let r = crate::scroll::smaller(crate::scroll::larger(desired, low), high);
            let visible = crate::scroll::larger(
                crate::scroll::smaller(crate::scroll::smaller(minimum_visible, window_extent), work_extent),
                1,
            );
            &&& low <= high
            &&& window_extent <= work_extent ==> work_start <= r && r + window_extent <= work_start + work_extent
            &&& window_extent > work_extent ==> r + window_extent >= work_start + visible && r
                <= work_start + work_extent - visible
            &&& low <= desired <= high ==> r == desired
        }),
{
}

pub fn clamp_native_axis(desired: i32, window_extent: i32, work_start: i32, work_extent: i32, minimum_visible: i32) -> (r: i32)
    requires
        native_axis_bounds(window_extent as int, work_start as int, work_extent as int, minimum_visible as int).0
            <= native_axis_bounds(window_extent as int, work_start as int, work_extent as int, minimum_visible as int).1,
        i32::MIN <= native_axis_bounds(window_extent as int, work_start as int, work_extent as int, minimum_visible as int).0,
        native_axis_bounds(window_extent as int, work_start as int, work_extent as int, minimum_visible as int).1
            <= i32::MAX,
        i32::MIN <= work_start + work_extent <= i32::MAX,
    ensures
        ({
            let (low, high) = native_axis_bounds(window_extent as int, work_start as int, work_extent as int, minimum_visible as int);
            r == crate::scroll::smaller(crate::scroll::larger(desired as int, low), high)
        }),
{
    let (low, high): (i64, i64) = if window_extent <= work_extent {
        (work_start as i64, work_start as i64 + work_extent as i64 - window_extent as i64)
    } else {
        let mut visible = if minimum_visible <= window_extent {
            minimum_visible
        } else {
            window_extent
        };
        if work_extent < visible {
            visible = work_extent;
        }
        if visible < 1 {
            visible = 1;
        }
        (
            work_start as i64 + visible as i64 - window_extent as i64,
            work_start as i64 + work_extent as i64 - visible as i64,
        )
    };
    if (desired as i64) < low {
        low as i32
    } else if (desired as i64) > high {
        high as i32
    } else {
        desired
    }
}

/// The outer size a pin window needs for an inner (client) size of
/// `target_inner`, given its current inner and outer sizes.
pub fn target_outer_extent(target_inner: u32, current_inner: u32, current_outer: u32) -> (r: Result<i32, String>)
    ensures
        ({
            let frame = if current_outer >= current_inner { current_outer - current_inner } else { 0 };
            if target_inner + frame <= i32::MAX {
                r == Ok::<i32, String>((target_inner + frame) as i32)
            } else {
                r matches Err(e) && e@ == "pin window extent is too large"@
            }
        }),
{
    let frame = if current_outer >= current_inner {
        current_outer - current_inner
    } else {
        0
    };
    if target_inner > u32::MAX - frame || target_inner + frame > 0x7fff_ffff {
        return Err("pin window extent is too large".to_owned());
    }
    Ok((target_inner + frame) as i32)
}

/// A screen rectangle in physical pixels.
#[derive(Clone, Copy, Debug, PartialEq, Eq, Structural)]
pub struct ScreenRect {
    pub left: i32,
    pub top: i32,
    pub right: i32,
    pub bottom: i32,
}

/// The width of the zoom display next to a pin window.
pub const HUD_WIDTH: i32 = 112;
/// The height of the zoom display.
pub const HUD_HEIGHT: i32 = 20;
/// The gap between the zoom display and the pin window.
pub const HUD_GAP: i32 = 4;
/// The color key that the zoom display's layered window treats as
/// transparent, as a `COLORREF` value.
pub const HUD_TRANSPARENT_COLOR: u32 = 0x00ff_00ff;
/// The zoom display's text color: black.
pub const HUD_TEXT_COLOR: u32 = 0x0000_0000;
/// The outline drawn around the zoom display's text: white.
pub const HUD_SHADOW_COLOR: u32 = 0x00ff_ffff;

/// Where the zoom display goes: right-aligned with the image, above it when
/// there is room in the work area, else below it.
pub open spec fn spec_hud_position(image: ScreenRect, work: ScreenRect) -> (int, int) {
    let x = crate::scroll::smaller(crate::scroll::larger(image.right - 112, work.left as int), work.right - 112);
    let above = image.top - 20 - 4;
    let y = if above >= work.top {
        above
    } else {
        crate::scroll::smaller(image.bottom + 4, work.bottom - 20)
    };
    (x, y)
}

/// The zoom display (112 x 20 pixels) sits inside the work area
/// horizontally, right-aligned with the image when it can be; it goes 4
/// pixels above the image when that leaves it inside the work area, and
/// otherwise 4 pixels below the image when that does.
pub proof fn lemma_hud_outside_image_inside_work_area(image: ScreenRect, work: ScreenRect)
    requires
        work.left <= work.right - 112,
    ensures
        ({
            let (x, y) = spec_hud_position(image, work);
            &&& work.left <= x && x + 112 <= work.right
            &&& work.left <= image.right - 112 <= work.right - 112 ==> x + 112 == image.right
            &&& image.top - 24 >= work.top ==> y + 20 + 4 == image.top
            &&& image.top - 24 < work.top && image.bottom + 4 + 20 <= work.bottom ==> y == image.bottom + 4
            &&& image.top - 24 < work.top ==> y + 20 <= work.bottom
        }),
{
}

pub fn hud_position(image: ScreenRect, work: ScreenRect) -> (r: (i32, i32))
    requires
        work.left <= work.right - 112,
        image.right >= i32::MIN + 112,
        image.top >= i32::MIN + 24,
        image.bottom <= i32::MAX - 4,
        work.right >= i32::MIN + 112,
        work.bottom >= i32::MIN + 20,
    ensures
        (r.0 as int, r.1 as int) == spec_hud_position(image, work),
{
    let right_aligned = image.right - HUD_WIDTH;
    let x = if right_aligned < work.left {
        work.left
    } else if right_aligned > work.right - HUD_WIDTH {
        work.right - HUD_WIDTH
    } else {
        right_aligned
    };
    let above = image.top - HUD_HEIGHT - HUD_GAP;
    let y = if above >= work.top {
        above
    } else if image.bottom + HUD_GAP <= work.bottom - HUD_HEIGHT {
        image.bottom + HUD_GAP
    } else {
        work.bottom - HUD_HEIGHT
    };
    (x, y)
}

} // verus!
