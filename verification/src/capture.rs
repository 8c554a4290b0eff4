//! The screen-capture session: the captured desktop, the selected region,
//! its crop and rotation, and the frame chosen for the output.
use vstd::prelude::*;

use crate::raster::Raster;
use crate::raster::cropped_grid;
use crate::raster::encode_png;
use crate::raster::rotated_extent;
use crate::raster::rotated_grid;
use crate::raster::spec_encode_png;
use crate::raster::swap_red_blue_opaque;
use crate::raster::swapped_red_blue_opaque;

verus! {

/// The physical bounds of the Windows virtual desktop.
#[derive(Clone, Copy, Debug, PartialEq, Eq, Structural)]
pub struct DesktopBounds {
    pub x: i32,
    pub y: i32,
    pub width: u32,
    pub height: u32,
}

/// A selection in absolute physical desktop coordinates.
#[derive(Clone, Copy, Debug, PartialEq, Eq, Structural)]
pub struct PhysicalSelectionRect {
    pub x: i32,
    pub y: i32,
    pub width: u32,
    pub height: u32,
}

/// A crop inside the selected image, in its pixels.
#[derive(Clone, Copy, Debug, PartialEq, Eq, Structural)]
pub struct SelectionCropRect {
    pub x: u32,
    pub y: u32,
    pub width: u32,
    pub height: u32,
}

/// A rectangle of image pixels.
#[derive(Clone, Copy, Debug, PartialEq, Eq, Structural)]
pub struct PixelRect {
    pub x: u32,
    pub y: u32,
    pub width: u32,
    pub height: u32,
}

/// The frame drawn around the output image.
#[derive(Clone, Copy, Debug, PartialEq, Eq, Structural)]
pub enum FrameStyle {
    Plain,
    Macos,
}

impl Default for FrameStyle {
    fn default() -> (r: Self)
        ensures
            r == FrameStyle::Plain,
    {
        FrameStyle::Plain
    }
}

/// The selection's rotation and its size after rotating.
#[derive(Clone, Copy, Debug, PartialEq, Eq, Structural)]
pub struct RotationPayload {
    pub quarters: u8,
    pub width: u32,
    pub height: u32,
}

pub open spec fn clamp(v: int, lo: int, hi: int) -> int {
    if v < lo {
        lo
    } else if v > hi {
        hi
    } else {
        v
    }
}

pub open spec fn min(a: int, b: int) -> int {
    if a < b {
        a
    } else {
        b
    }
}

/// The image pixels a desktop selection covers, for a capture of the given
/// size: the selection is clipped to the desktop and to the image, and must
/// not be empty at either step.
pub open spec fn spec_pixel_rect(
    selection: PhysicalSelectionRect,
    desktop: DesktopBounds,
    image_width: nat,
    image_height: nat,
) -> Result<(nat, nat, nat, nat), Seq<char>> {
    if selection.width == 0 || selection.height == 0 {
        Err("selection must have a non-zero width and height"@)
    } else {
        let dl = desktop.x as int;
        let dt = desktop.y as int;
        let dr = dl + desktop.width;
        let db = dt + desktop.height;
        let left = clamp(selection.x as int, dl, dr);
        let top = clamp(selection.y as int, dt, db);
        let right = clamp(selection.x + selection.width, dl, dr);
        let bottom = clamp(selection.y + selection.height, dt, db);
        if right <= left || bottom <= top {
            Err("selection is outside the virtual desktop"@)
        } else {
            let x = min(left - dl, image_width as int);
            let y = min(top - dt, image_height as int);
            let r = min(right - dl, image_width as int);
            let b = min(bottom - dt, image_height as int);
            if r <= x || b <= y {
                Err("selection maps to an empty image region"@)
            } else {
                Ok((x as nat, y as nat, (r - x) as nat, (b - y) as nat))
            }
        }
    }
}

/// A selection that lies inside the desktop, in a capture as large as the
/// desktop, covers exactly its own pixels, counted from the desktop's
/// top-left corner.
pub proof fn lemma_selection_inside_desktop_maps_to_its_pixels(
    selection: PhysicalSelectionRect,
    desktop: DesktopBounds,
)
    requires
        selection.width > 0,
        selection.height > 0,
        desktop.x <= selection.x,
        desktop.y <= selection.y,
        selection.x + selection.width <= desktop.x + desktop.width,
        selection.y + selection.height <= desktop.y + desktop.height,
    ensures
        spec_pixel_rect(selection, desktop, desktop.width as nat, desktop.height as nat) == Ok::<
            (nat, nat, nat, nat),
            Seq<char>,
        >(
            (
                (selection.x - desktop.x) as nat,
                (selection.y - desktop.y) as nat,
                selection.width as nat,
                selection.height as nat,
            ),
        ),
{
}

fn clamp_i64(v: i64, lo: i64, hi: i64) -> (r: i64)
    requires
        lo <= hi,
    ensures
        r == clamp(v as int, lo as int, hi as int),
{
    if v < lo {
        lo
    } else if v > hi {
        hi
    } else {
        v
    }
}

fn min_u32(a: u32, b: u32) -> (r: u32)
    ensures
        r == min(a as int, b as int),
{
    if a < b {
        a
    } else {
        b
    }
}

impl PhysicalSelectionRect {
    /// The image pixels this selection covers in a capture of the desktop.
    pub fn to_pixel_rect(self, desktop: &DesktopBounds, image_width: u32, image_height: u32) -> (r: Result<PixelRect, String>)
        ensures
            match r {
                Ok(p) => spec_pixel_rect(self, *desktop, image_width as nat, image_height as nat)
                    == Ok::<(nat, nat, nat, nat), Seq<char>>((p.x as nat, p.y as nat, p.width as nat, p.height as nat)),
                Err(e) => spec_pixel_rect(self, *desktop, image_width as nat, image_height as nat)
                    == Err::<(nat, nat, nat, nat), Seq<char>>(e@),
            },
            r matches Ok(p) ==> p.width > 0 && p.height > 0 && p.x + p.width <= image_width && p.y
                + p.height <= image_height,
    {
        if self.width == 0 || self.height == 0 {
            return Err("selection must have a non-zero width and height".to_owned());
        }
        let desktop_left = desktop.x as i64;
        let desktop_top = desktop.y as i64;
        let desktop_right = desktop_left + desktop.width as i64;
        let desktop_bottom = desktop_top + desktop.height as i64;
        let left = clamp_i64(self.x as i64, desktop_left, desktop_right);
        let top = clamp_i64(self.y as i64, desktop_top, desktop_bottom);
        let right = clamp_i64(self.x as i64 + self.width as i64, desktop_left, desktop_right);
        let bottom = clamp_i64(self.y as i64 + self.height as i64, desktop_top, desktop_bottom);
        if right <= left || bottom <= top {
            return Err("selection is outside the virtual desktop".to_owned());
        }
        let x = min_u32((left - desktop_left) as u32, image_width);
        let y = min_u32((top - desktop_top) as u32, image_height);
        let r = min_u32((right - desktop_left) as u32, image_width);
        let b = min_u32((bottom - desktop_top) as u32, image_height);
        if r <= x || b <= y {
            return Err("selection maps to an empty image region".to_owned());
        }
        Ok(PixelRect { x, y, width: r - x, height: b - y })
    }
}

/// One capture of the desktop and what was made of it so far. `A` is the
/// annotation type, which this module only stores.
pub struct CapturedScreen<A> {
    pub desktop: DesktopBounds,
    pub image: Option<Raster>,
    pub selection: Option<Raster>,
    pub annotations: Vec<A>,
    pub rotation_quarters: u8,
}

/// The capture session: at most one capture, and the frame chosen for its
/// output.
pub struct CaptureSession<A> {
    current: Option<CapturedScreen<A>>,
    frame_style: FrameStyle,
}

/// Whether `s` holds exactly the pixels of `img`.
pub open spec fn same_image(s: Raster, img: Raster) -> bool {
    s.spec_width() == img.spec_width() && s.spec_height() == img.spec_height() && s.grid() == img.grid()
}

pub open spec fn no_capture_error() -> Seq<char> {
    "there is no active screen capture"@
}

/// The capture after a new selection: the full image is released, the
/// selection replaced, annotations dropped and the rotation reset.
pub open spec fn after_reselect<A>(before: CapturedScreen<A>, after: CapturedScreen<A>, grid: Seq<Seq<crate::raster::Rgba>>, width: nat, height: nat, release_image: bool) -> bool {
    &&& after.desktop == before.desktop
    &&& (if release_image { after.image is None } else { after.image == before.image })
    &&& after.selection matches Some(s) && s.grid() == grid && s.spec_width() == width && s.spec_height() == height
    &&& after.annotations@.len() == 0
    &&& after.rotation_quarters == 0
}

impl<A> CaptureSession<A> {
    #[verifier::type_invariant]
    closed spec fn rotation_in_range(self) -> bool {
        self.current matches Some(c) ==> c.rotation_quarters < 4
    }

    pub closed spec fn capture(self) -> Option<CapturedScreen<A>> {
        self.current
    }

    pub closed spec fn frame(self) -> FrameStyle {
        self.frame_style
    }

    /// A session with no capture.
    pub fn new() -> (r: Self)
        ensures
            r.capture() is None,
            r.frame() == FrameStyle::Plain,
    {
        CaptureSession { current: None, frame_style: FrameStyle::Plain }
    }

    /// Starts over with a new capture; the frame is reset.
    pub fn replace(&mut self, capture: CapturedScreen<A>)
        requires
            capture.rotation_quarters < 4,
        ensures
            final(self).capture() == Some(capture),
            final(self).frame() == FrameStyle::Plain,
    {
        *self = CaptureSession { current: Some(capture), frame_style: FrameStyle::Plain };
    }

    /// Forgets the capture; the frame is reset.
    pub fn clear(&mut self)
        ensures
            final(self).capture() is None,
            final(self).frame() == FrameStyle::Plain,
    {
        *self = CaptureSession::new();
    }

    /// The quarter turns of the selection, when there is one.
    pub fn rotation_quarters(&self) -> (r: Option<u8>)
        ensures
            r == match self.capture() {
                Some(c) => if c.selection is Some {
                    Some(c.rotation_quarters)
                } else {
                    None::<u8>
                },
                None => None::<u8>,
            },
    {
        match &self.current {
            Some(capture) => if capture.selection.is_some() {
                Some(capture.rotation_quarters)
            } else {
                None
            },
            None => None,
        }
    }

    pub fn is_active(&self) -> (r: bool)
        ensures
            r == self.capture() is Some,
    {
        self.current.is_some()
    }

    /// The size of the full captured image, or why it is unavailable.
    pub fn full_image_extent(&self) -> (r: Result<(u32, u32), String>)
        ensures
            match self.capture() {
                None => r matches Err(e) && e@ == no_capture_error(),
                Some(c) => match c.image {
                    None => r matches Err(e) && e@ == "the full screen image was released after selection"@,
                    Some(img) => r == Ok::<(u32, u32), String>((img.spec_width() as u32, img.spec_height() as u32)),
                },
            },
    {
        match &self.current {
            None => Err("there is no active screen capture".to_owned()),
            Some(capture) => match &capture.image {
                None => Err("the full screen image was released after selection".to_owned()),
                Some(image) => Ok((image.width(), image.height())),
            },
        }
    }

    /// The PNG file of the full captured image.
    pub fn capture_png(&self) -> (r: Result<Vec<u8>, String>)
        ensures
            match self.capture() {
                None => r matches Err(e) && e@ == no_capture_error(),
                Some(c) => match c.image {
                    None => r matches Err(e) && e@ == "the full screen image was released after selection"@,
                    Some(img) => match r {
                        Ok(png) => spec_encode_png(img) == Ok::<Seq<u8>, Seq<char>>(png@),
                        Err(e) => spec_encode_png(img) == Err::<Seq<u8>, Seq<char>>(e@),
                    },
                },
            },
    {
        match &self.current {
            None => Err("there is no active screen capture".to_owned()),
            Some(capture) => match &capture.image {
                None => Err("the full screen image was released after selection".to_owned()),
                Some(image) => encode_png(image),
            },
        }
    }

    /// Crops the full image to a desktop selection. The full image is then
    /// released, annotations are dropped and rotation and frame are reset;
    /// on error nothing changes.
    pub fn select(&mut self, selection: PhysicalSelectionRect) -> (r: Result<(u32, u32), String>)
        ensures
            match old(self).capture() {
                None => r matches Err(e) && e@ == no_capture_error(),
                Some(c) => match c.image {
                    None => r matches Err(e) && e@ == "the full screen image was released after selection"@,
                    Some(img) => match spec_pixel_rect(selection, c.desktop, img.spec_width(), img.spec_height()) {
                        Err(e) => r matches Err(m) && m@ == e,
                        Ok(rect) => {
                            &&& r == Ok::<(u32, u32), String>((rect.2 as u32, rect.3 as u32))
                            &&& final(self).frame() == FrameStyle::Plain
                            &&& final(self).capture() matches Some(after) && after_reselect(
                                c,
                                after,
                                cropped_grid(img.grid(), rect.0, rect.1, rect.2, rect.3),
                                rect.2,
                                rect.3,
                                true,
                            )
                        },
                    },
                },
            },
            r is Err ==> final(self).capture() == old(self).capture() && final(self).frame() == old(self).frame(),
    {
        let rect = match &self.current {
            None => return Err("there is no active screen capture".to_owned()),
            Some(capture) => match &capture.image {
                None => return Err("the full screen image was released after selection".to_owned()),
                Some(image) => {
                    let rect = selection.to_pixel_rect(&capture.desktop, image.width(), image.height())?;
                    rect
                },
            },
        };
        let mut old_capture: Option<CapturedScreen<A>> = None;
        std::mem::swap(&mut old_capture, &mut self.current);
        match old_capture {
            Some(capture) => {
                let image = capture.image.unwrap();
                let selected = image.crop(rect.x, rect.y, rect.width, rect.height);
                let width = selected.width();
                let height = selected.height();
                *self = CaptureSession {
                    current: Some(
                        CapturedScreen {
                            desktop: capture.desktop,
                            image: None,
                            selection: Some(selected),
                            annotations: Vec::new(),
                            rotation_quarters: 0,
                        },
                    ),
                    frame_style: FrameStyle::Plain,
                };
                Ok((width, height))
            },
            None => Err("there is no active screen capture".to_owned()),
        }
    }
}

/// Where a crop rectangle lies in a selection of the given size, or the
/// message that rejects it.
pub open spec fn spec_check_crop(crop: SelectionCropRect, width: nat, height: nat) -> Result<(), Seq<char>> {
    if crop.width == 0 || crop.height == 0 {
        Err("crop must have a non-zero width and height"@)
    } else if crop.x + crop.width > u32::MAX {
        Err("crop right coordinate overflowed"@)
    } else if crop.y + crop.height > u32::MAX {
        Err("crop bottom coordinate overflowed"@)
    } else if crop.x + crop.width > width || crop.y + crop.height > height {
        Err("crop is outside the selected image"@)
    } else {
        Ok(())
    }
}

/// The rotation after turning `quarters` by `delta` quarter turns,
/// reduced to `0..4`.
pub open spec fn spec_turn(quarters: int, delta: int) -> int {
    ((quarters + delta) % 4 + 4) % 4
}

impl<A> CaptureSession<A> {
    /// Crops the selection. Annotations are dropped and rotation and frame
    /// reset; on error nothing changes.
    pub fn crop_selection(&mut self, crop: SelectionCropRect) -> (r: Result<(u32, u32), String>)
        ensures
            match old(self).capture() {
                None => r matches Err(e) && e@ == no_capture_error(),
                Some(c) => match c.selection {
                    None => r matches Err(e) && e@ == "select an area before cropping"@,
                    Some(sel) => match spec_check_crop(crop, sel.spec_width(), sel.spec_height()) {
                        Err(e) => r matches Err(m) && m@ == e,
                        Ok(_) => {
                            &&& r == Ok::<(u32, u32), String>((crop.width, crop.height))
                            &&& final(self).frame() == FrameStyle::Plain
                            &&& final(self).capture() matches Some(after) && after_reselect(
                                c,
                                after,
                                cropped_grid(sel.grid(), crop.x as nat, crop.y as nat, crop.width as nat, crop.height as nat),
                                crop.width as nat,
                                crop.height as nat,
                                false,
                            )
                        },
                    },
                },
            },
            r is Err ==> final(self).capture() == old(self).capture() && final(self).frame() == old(self).frame(),
    {
        match &self.current {
            None => return Err("there is no active screen capture".to_owned()),
            Some(capture) => match &capture.selection {
                None => return Err("select an area before cropping".to_owned()),
                Some(selection) => {
                    if crop.width == 0 || crop.height == 0 {
                        return Err("crop must have a non-zero width and height".to_owned());
                    }
                    let right = match crop.x.checked_add(crop.width) {
                        Some(v) => v,
                        None => return Err("crop right coordinate overflowed".to_owned()),
                    };
                    let bottom = match crop.y.checked_add(crop.height) {
                        Some(v) => v,
                        None => return Err("crop bottom coordinate overflowed".to_owned()),
                    };
                    if right > selection.width() || bottom > selection.height() {
                        return Err("crop is outside the selected image".to_owned());
                    }
                },
            },
        }
        let mut old_capture: Option<CapturedScreen<A>> = None;
        std::mem::swap(&mut old_capture, &mut self.current);
        match old_capture {
            Some(capture) => {
                let selection = capture.selection.unwrap();
                let cropped = selection.crop(crop.x, crop.y, crop.width, crop.height);
                *self = CaptureSession {
                    current: Some(
                        CapturedScreen {
                            desktop: capture.desktop,
                            image: capture.image,
                            selection: Some(cropped),
                            annotations: Vec::new(),
                            rotation_quarters: 0,
                        },
                    ),
                    frame_style: FrameStyle::Plain,
                };
                Ok((crop.width, crop.height))
            },
            None => Err("there is no active screen capture".to_owned()),
        }
    }

    /// Chooses the output frame; a selection must exist.
    pub fn set_frame_style(&mut self, style: FrameStyle) -> (r: Result<(), String>)
        ensures
            match old(self).capture() {
                None => r matches Err(e) && e@ == no_capture_error(),
                Some(c) => match c.selection {
                    None => r matches Err(e) && e@ == "select an area before adding an image frame"@,
                    Some(_) => r is Ok,
                },
            },
            final(self).capture() == old(self).capture(),
            final(self).frame() == if r is Ok { style } else { old(self).frame() },
    {
        proof {
            use_type_invariant(&*self);
        }
        match &self.current {
            None => Err("there is no active screen capture".to_owned()),
            Some(capture) => {
                if capture.selection.is_none() {
                    return Err("select an area before adding an image frame".to_owned());
                }
                self.frame_style = style;
                Ok(())
            },
        }
    }

    /// Turns the selection by `delta_quarters` quarter turns clockwise
    /// (negative values turn it back) and reports the new rotation and the
    /// rotated size.
    pub fn rotate_selection(&mut self, delta_quarters: i32) -> (r: Result<RotationPayload, String>)
        requires
            old(self).capture() matches Some(c) ==> (c.selection is Some ==> c.rotation_quarters
                + delta_quarters <= i32::MAX),
        ensures
            match old(self).capture() {
                None => r matches Err(e) && e@ == no_capture_error() && final(self).capture() == old(self).capture(),
                Some(c) => match c.selection {
                    None => r matches Err(e) && e@ == "select an area before rotating"@ && final(self).capture() == old(self).capture(),
                    Some(sel) => {
                        let q = spec_turn(c.rotation_quarters as int, delta_quarters as int);
                        let extent = rotated_extent(sel.spec_width(), sel.spec_height(), q as nat);
                        &&& r == Ok::<RotationPayload, String>(RotationPayload { quarters: q as u8, width: extent.0 as u32, height: extent.1 as u32 })
                        &&& final(self).capture() matches Some(after)
                        &&& after.desktop == c.desktop
                        &&& after.image == c.image
                        &&& after.selection == c.selection
                        &&& after.annotations == c.annotations
                        &&& after.rotation_quarters == q
                    },
                },
            },
            final(self).frame() == old(self).frame(),
    {
        proof {
            use_type_invariant(&*self);
        }
        match &self.current {
            None => return Err("there is no active screen capture".to_owned()),
            Some(capture) => {
                if capture.selection.is_none() {
                    return Err("select an area before rotating".to_owned());
                }
            },
        }
        let frame_style = self.frame_style;
        let mut old_capture: Option<CapturedScreen<A>> = None;
        std::mem::swap(&mut old_capture, &mut self.current);
        match old_capture {
            Some(capture) => {
                let sum = capture.rotation_quarters as i32 + delta_quarters;
                let quarters = ((sum % 4 + 4) % 4) as u8;
                let (width, height) = match &capture.selection {
                    Some(selection) => if quarters % 2 == 0 {
                        (selection.width(), selection.height())
                    } else {
                        (selection.height(), selection.width())
                    },
                    None => (0, 0),
                };
                *self = CaptureSession {
                    current: Some(
                        CapturedScreen {
                            desktop: capture.desktop,
                            image: capture.image,
                            selection: capture.selection,
                            annotations: capture.annotations,
                            rotation_quarters: quarters,
                        },
                    ),
                    frame_style,
                };
                Ok(RotationPayload { quarters, width, height })
            },
            None => Err("there is no active screen capture".to_owned()),
        }
    }

    /// The PNG file of the selection, for the annotation editor.
    pub fn selected_png(&self) -> (r: Result<Vec<u8>, String>)
        ensures
            match self.capture() {
                None => r matches Err(e) && e@ == no_capture_error(),
                Some(c) => match c.selection {
                    None => r matches Err(e) && e@ == "select an area before opening the annotation editor"@,
                    Some(sel) => match r {
                        Ok(png) => spec_encode_png(sel) == Ok::<Seq<u8>, Seq<char>>(png@),
                        Err(e) => spec_encode_png(sel) == Err::<Seq<u8>, Seq<char>>(e@),
                    },
                },
            },
    {
        match &self.current {
            None => Err("there is no active screen capture".to_owned()),
            Some(capture) => match &capture.selection {
                None => Err("select an area before opening the annotation editor".to_owned()),
                Some(selection) => encode_png(selection),
            },
        }
    }

    /// The size annotations are checked against: that of the selection.
    pub fn annotation_extent(&self) -> (r: Result<(u32, u32), String>)
        ensures
            match self.capture() {
                None => r matches Err(e) && e@ == no_capture_error(),
                Some(c) => match c.selection {
                    None => r matches Err(e) && e@ == "select an area before applying annotations"@,
                    Some(sel) => r == Ok::<(u32, u32), String>((sel.spec_width() as u32, sel.spec_height() as u32)),
                },
            },
    {
        match &self.current {
            None => Err("there is no active screen capture".to_owned()),
            Some(capture) => match &capture.selection {
                None => Err("select an area before applying annotations".to_owned()),
                Some(selection) => Ok((selection.width(), selection.height())),
            },
        }
    }

    /// Replaces the annotations of the selection.
    pub fn store_annotations(&mut self, annotations: Vec<A>) -> (r: Result<(), String>)
        ensures
            match old(self).capture() {
                None => r matches Err(e) && e@ == no_capture_error() && final(self).capture() == old(self).capture(),
                Some(c) => match c.selection {
                    None => r matches Err(e) && e@ == "select an area before applying annotations"@ && final(self).capture() == old(self).capture(),
                    Some(_) => {
                        &&& r is Ok
                        &&& final(self).capture() matches Some(after)
                        &&& after.desktop == c.desktop
                        &&& after.image == c.image
                        &&& after.selection == c.selection
                        &&& after.annotations == annotations
                        &&& after.rotation_quarters == c.rotation_quarters
                    },
                },
            },
            final(self).frame() == old(self).frame(),
    {
        proof {
            use_type_invariant(&*self);
        }
        match &self.current {
            None => return Err("there is no active screen capture".to_owned()),
            Some(capture) => {
                if capture.selection.is_none() {
                    return Err("select an area before applying annotations".to_owned());
                }
            },
        }
        let frame_style = self.frame_style;
        let mut old_capture: Option<CapturedScreen<A>> = None;
        std::mem::swap(&mut old_capture, &mut self.current);
        match old_capture {
            Some(capture) => {
                *self = CaptureSession {
                    current: Some(
                        CapturedScreen {
                            desktop: capture.desktop,
                            image: capture.image,
                            selection: capture.selection,
                            annotations,
                            rotation_quarters: capture.rotation_quarters,
                        },
                    ),
                    frame_style,
                };
                Ok(())
            },
            None => Err("there is no active screen capture".to_owned()),
        }
    }

    /// The annotations of the capture, when there is one.
    pub fn annotations(&self) -> (r: Option<&Vec<A>>)
        ensures
            match self.capture() {
                None => r is None,
                Some(c) => r == Some(&c.annotations),
            },
    {
        match &self.current {
            None => None,
            Some(capture) => Some(&capture.annotations),
        }
    }

    /// What the output is rendered from: a copy of the selection, its
    /// rotation and the frame.
    pub fn output_source(&self) -> (r: Result<(Raster, u8, FrameStyle), String>)
        ensures
            match self.capture() {
                None => r matches Err(e) && e@ == no_capture_error(),
                Some(c) => match c.selection {
                    None => r matches Err(e) && e@ == "select an area before copying"@,
                    Some(sel) => r matches Ok((img, q, f)) && same_image(img, sel) && q == c.rotation_quarters
                        && f == self.frame(),
                },
            },
            r matches Ok((_, q, _)) ==> q < 4,
    {
        proof {
            use_type_invariant(self);
        }
        match &self.current {
            None => Err("there is no active screen capture".to_owned()),
            Some(capture) => match &capture.selection {
                None => Err("select an area before copying".to_owned()),
                Some(selection) => Ok((selection.copy(), capture.rotation_quarters, self.frame_style)),
            },
        }
    }

    /// A copy of the untouched selection, for text recognition.
    pub fn raw_selection(&self) -> (r: Result<Raster, String>)
        ensures
            match self.capture() {
                None => r matches Err(e) && e@ == no_capture_error(),
                Some(c) => match c.selection {
                    None => r matches Err(e) && e@ == "select an area before recognizing text"@,
                    Some(sel) => r matches Ok(img) && same_image(img, sel),
                },
            },
    {
        match &self.current {
            None => Err("there is no active screen capture".to_owned()),
            Some(capture) => match &capture.selection {
                None => Err("select an area before recognizing text".to_owned()),
                Some(selection) => Ok(selection.copy()),
            },
        }
    }
}

impl<A> Default for CaptureSession<A> {
    fn default() -> (r: Self)
        ensures
            r.capture() is None,
            r.frame() == FrameStyle::Plain,
    {
        CaptureSession::new()
    }
}

/// The rendered selection turned by its rotation.
pub fn rotate_output(image: &Raster, quarters: u8) -> (r: Raster)
    requires
        quarters < 4,
    ensures
        (r.spec_width(), r.spec_height()) == rotated_extent(image.spec_width(), image.spec_height(), quarters as nat),
        r.grid() == rotated_grid(image.grid(), image.spec_width(), image.spec_height(), quarters as nat),
{
    image.rotated(quarters)
}

/// Turns the BGRA pixels a Windows screen capture delivers into opaque
/// RGBA pixels: blue and red change places and alpha becomes 255.
pub fn bgra_to_rgba(pixels: &mut Vec<u8>)
    ensures
        final(pixels)@ == swapped_red_blue_opaque(old(pixels)@),
{
    swap_red_blue_opaque(pixels);
}

} // verus!
