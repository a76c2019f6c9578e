//! Ink on a screenshot: where the dark pixels are.
use vstd::prelude::*;

verus! {

/// Pixels of the page darker than this are ink.
pub const INK_LUMA_MAX: u8 = 80;

/// The page begins here; to the left of it is the toolbar.
pub const PAGE_X_MIN: u32 = 80;

/// No column from here on belongs to the page.
pub const PAGE_X_END: u32 = 768;

/// No row from here on belongs to the page.
pub const PAGE_Y_END: u32 = 1024;

/// Pixels of a drawing darker than this are drawn.
pub const DRAWN_LUMA_MAX: u8 = 128;

/// An image in shades of grey, row by row from the upper left.
#[derive(Debug)]
pub struct LumaImage {
    pub width: u32,
    pub height: u32,
    pub pixels: Vec<u8>,
}

/// A [`LumaImage`] with its pixels as a sequence.
pub struct Grey {
    pub width: u32,
    pub height: u32,
    pub pixels: Seq<u8>,
}

impl View for LumaImage {
    type V = Grey;

    open spec fn view(&self) -> Grey {
        Grey { width: self.width, height: self.height, pixels: self.pixels@ }
    }
}

impl Grey {
    /// There is a pixel for every place in the image.
    pub open spec fn wf(self) -> bool {
        self.width * self.height <= self.pixels.len()
    }

    /// The brightness at column `x` of row `y`.
    pub open spec fn luma(self, x: int, y: int) -> u8 {
        self.pixels[y * self.width + x]
    }

    /// How many columns of the image the page has at most.
    pub open spec fn page_width(self) -> int {
        if self.width <= PAGE_X_END {
            self.width as int
        } else {
            PAGE_X_END as int
        }
    }

    /// How many rows of the image the page has.
    pub open spec fn page_height(self) -> int {
        if self.height <= PAGE_Y_END {
            self.height as int
        } else {
            PAGE_Y_END as int
        }
    }

    /// Whether there is ink at column `x` of row `y`, in the columns that are
    /// looked at: every second one of the page.
    pub open spec fn inked(self, x: int, y: int) -> bool {
        &&& PAGE_X_MIN <= x < self.page_width()
        &&& (x - PAGE_X_MIN) % 2 == 0
        &&& self.luma(x, y) < INK_LUMA_MAX
    }

    /// How many of the first `columns` columns have ink in row `y`.
    pub open spec fn ink_to(self, columns: int, y: int) -> int
        decreases columns,
    {
        if columns <= 0 {
            0
        } else {
            self.ink_to(columns - 1, y) + if self.inked(columns - 1, y) {
                1int
            } else {
                0
            }
        }
    }

    /// How many columns have ink in row `y`.
    pub open spec fn ink(self, y: int) -> int {
        self.ink_to(self.page_width(), y)
    }

    /// The ink of every row of the page.
    pub open spec fn is_profile(self, profile: Seq<u32>) -> bool {
        &&& profile.len() == self.page_height()
        &&& forall|y: int| 0 <= y < profile.len() ==> #[trigger] profile[y] == self.ink(y)
    }

    /// Whether row `y` has ink.
    pub open spec fn has_ink(self, y: int) -> bool {
        exists|x: int| self.inked(x, y)
    }

    /// Whether these are the first and the last row of the page with ink.
    pub open spec fn is_bounds(self, bounds: Option<(u32, u32)>) -> bool {
        match bounds {
            Some((top, bottom)) => {
                &&& top <= bottom < self.page_height()
                &&& self.has_ink(top as int) && self.has_ink(bottom as int)
                &&& forall|y: int|
                    0 <= y < self.page_height() && (y < top || bottom < y)
                        ==> !#[trigger] self.has_ink(y)
            },
            None => forall|y: int| 0 <= y < self.page_height() ==> !#[trigger] self.has_ink(y),
        }
    }

    /// Whether the pixel at column `x` of row `y` is to be drawn.
    pub open spec fn drawn(self, x: int, y: int) -> bool {
        self.luma(x, y) < DRAWN_LUMA_MAX
    }

    /// How many rows there are to draw.
    pub open spec fn drawn_rows(self) -> int {
        if self.width == 0 {
            0
        } else {
            self.height as int
        }
    }

    /// Counts of ink are within the number of columns, and zero just where
    /// there is none.
    proof fn lemma_ink_to(self, columns: int, y: int)
        requires
            0 <= columns,
        ensures
            0 <= self.ink_to(columns, y) <= columns,
            self.ink_to(columns, y) == 0 <==> forall|x: int|
                0 <= x < columns ==> !#[trigger] self.inked(x, y),
        decreases columns,
    {
        if columns > 0 {
            self.lemma_ink_to(columns - 1, y);
        }
    }

    /// The columns before the page, and every other one of it, add nothing.
    proof fn lemma_ink_skips(self, from: int, to: int, y: int)
        requires
            from <= to,
            forall|x: int| from <= x < to ==> !#[trigger] self.inked(x, y),
        ensures
            self.ink_to(to, y) == self.ink_to(from, y),
        decreases to - from,
    {
        if from < to {
            self.lemma_ink_skips(from, to - 1, y);
            assert(!self.inked(to - 1, y));
        }
    }

    /// The index of a pixel is within the image.
    proof fn lemma_index(self, x: int, y: int)
        requires
            self.wf(),
            0 <= x < self.width,
            0 <= y < self.height,
        ensures
            0 <= y * self.width + x < self.pixels.len(),
            y * self.width + x < self.width * self.height,
    {
        let (w, h) = (self.width as int, self.height as int);
        assert(0 <= y * w + x < w * h) by (nonlinear_arith)
            requires
                0 <= x < w,
                0 <= y < h,
        ;
    }
}

impl LumaImage {
    /// The brightness at column `x` of row `y`.
    pub fn get(&self, x: u32, y: u32) -> (value: u8)
        requires
            self@.wf(),
            x < self.width,
            y < self.height,
        ensures
            value == self@.luma(x as int, y as int),
    {
        proof {
            self@.lemma_index(x as int, y as int);
            self@.lemma_index(0, y as int);
            assert(self.pixels@.len() == self.pixels.len());
        }
        self.pixels[y as usize * self.width as usize + x as usize]
    }

    /// How many columns have ink in row `y`.
    fn row_ink(&self, y: u32) -> (count: u32)
        requires
            self@.wf(),
            y < self@.page_height(),
        ensures
            count == self@.ink(y as int),
    {
        let w: u32 = if self.width <= PAGE_X_END {
            self.width
        } else {
            PAGE_X_END
        };
        let mut count: u32 = 0;
        let mut x: u32 = PAGE_X_MIN;
        if w <= x {
            proof {
                self@.lemma_ink_skips(0, w as int, y as int);
            }
            return 0;
        }
        proof {
            self@.lemma_ink_skips(0, x as int, y as int);
        }
        while x < w
            invariant
                self@.wf(),
                y < self@.page_height(),
                w == self@.page_width(),
                PAGE_X_MIN <= x <= w + 1,
                (x - PAGE_X_MIN) % 2 == 0,
                count == self@.ink_to(x as int, y as int),
                count <= x,
            decreases w + 1 - x,
        {
            if self.get(x, y) < INK_LUMA_MAX {
                count = count + 1;
            }
            proof {
                assert(!self@.inked(x + 1, y as int));
                self@.lemma_ink_skips(x + 1, x + 2, y as int);
            }
            x = x + 2;
        }
        proof {
            self@.lemma_ink_skips(w as int, x as int, y as int);
        }
        count
    }

    /// The ink of every row of the page.
    pub fn ink_profile(&self) -> (profile: Vec<u32>)
        requires
            self@.wf(),
        ensures
            self@.is_profile(profile@),
    {
        let h: u32 = if self.height <= PAGE_Y_END {
            self.height
        } else {
            PAGE_Y_END
        };
        let mut profile: Vec<u32> = Vec::new();
        let mut y: u32 = 0;
        while y < h
            invariant
                self@.wf(),
                h == self@.page_height(),
                y <= h,
                profile@.len() == y,
                forall|i: int| 0 <= i < y ==> #[trigger] profile@[i] == self@.ink(i),
            decreases h - y,
        {
            profile.push(self.row_ink(y));
            y = y + 1;
        }
        profile
    }

    /// The first and the last row of the page with ink.
    pub fn ink_bounds(&self) -> (bounds: Option<(u32, u32)>)
        requires
            self@.wf(),
        ensures
            match bounds {
                Some((top, bottom)) => {
                    &&& top <= bottom < self@.page_height()
                    &&& self@.has_ink(top as int) && self@.has_ink(bottom as int)
                    &&& forall|y: int|
                        0 <= y < self@.page_height() && (y < top || bottom < y)
                            ==> !#[trigger] self@.has_ink(y)
                },
                None => forall|y: int|
                    0 <= y < self@.page_height() ==> !#[trigger] self@.has_ink(y),
            },
            self@.is_bounds(bounds),
    {
        let h: u32 = if self.height <= PAGE_Y_END {
            self.height
        } else {
            PAGE_Y_END
        };
        let mut bounds: Option<(u32, u32)> = None;
        let mut y: u32 = 0;
        while y < h
            invariant
                self@.wf(),
                h == self@.page_height(),
                y <= h,
                match bounds {
                    Some((top, bottom)) => {
                        &&& top <= bottom < y
                        &&& self@.has_ink(top as int) && self@.has_ink(bottom as int)
                        &&& forall|i: int|
                            0 <= i < y && (i < top || bottom < i) ==> !#[trigger] self@.has_ink(i)
                    },
                    None => forall|i: int| 0 <= i < y ==> !#[trigger] self@.has_ink(i),
                },
            decreases h - y,
        {
            let ink = self.row_ink(y);
            proof {
                self@.lemma_ink_to(self@.page_width(), y as int);
                if ink == 0 {
                    assert(!self@.has_ink(y as int));
                } else {
                    let x = choose|x: int|
                        0 <= x < self@.page_width() && #[trigger] self@.inked(x, y as int);
                    assert(self@.inked(x, y as int));
                }
            }
            if ink > 0 {
                bounds = match bounds {
                    Some((top, _)) => Some((top, y)),
                    None => Some((y, y)),
                };
            }
            y = y + 1;
        }
        bounds
    }

    /// Which pixels are to be drawn: the dark ones, row by row. An image
    /// without columns has no rows either.
    pub fn drawn_pixels(&self) -> (bitmap: Vec<Vec<bool>>)
        requires
            self@.wf(),
        ensures
            bitmap@.len() == if self.width == 0 {
                0
            } else {
                self.height as int
            },
            forall|y: int|
                0 <= y < bitmap@.len() ==> (#[trigger] bitmap@[y])@ =~= Seq::new(
                    self.width as nat,
                    |x: int| self@.luma(x, y) < DRAWN_LUMA_MAX,
                ),
            forall|y: int, x: int|
                0 <= y < bitmap@.len() && 0 <= x < self.width ==> #[trigger] bitmap@[y]@[x]
                    == self@.drawn(x, y),
            bitmap@.len() == self@.drawn_rows(),
    {
        let mut bitmap: Vec<Vec<bool>> = Vec::new();
        if self.width == 0 {
            return bitmap;
        }
        let mut y: u32 = 0;
        while y < self.height
            invariant
                self@.wf(),
                y <= self.height,
                bitmap@.len() == y,
                forall|i: int|
                    0 <= i < y ==> (#[trigger] bitmap@[i])@ =~= Seq::new(
                        self.width as nat,
                        |x: int| self@.luma(x, i) < DRAWN_LUMA_MAX,
                    ),
            decreases self.height - y,
        {
            let mut row: Vec<bool> = Vec::new();
            let mut x: u32 = 0;
            while x < self.width
                invariant
                    self@.wf(),
                    y < self.height,
                    x <= self.width,
                    row@.len() == x,
                    forall|i: int|
                        0 <= i < x ==> #[trigger] row@[i] == (self@.luma(i, y as int)
                            < DRAWN_LUMA_MAX),
                decreases self.width - x,
            {
                row.push(self.get(x, y) < DRAWN_LUMA_MAX);
                x = x + 1;
            }
            bitmap.push(row);
            y = y + 1;
        }
        bitmap
    }
}

/// The ink of a row is at most the width of the page, and a page has at most
/// [`PAGE_Y_END`] rows.
pub proof fn law_profiles_are_small(image: Grey, profile: Seq<u32>)
    requires
        image.is_profile(profile),
    ensures
        profile.len() <= PAGE_Y_END,
        forall|y: int| 0 <= y < profile.len() ==> #[trigger] profile[y] <= PAGE_X_END,
{
    assert forall|y: int| 0 <= y < profile.len() implies #[trigger] profile[y] <= PAGE_X_END by {
        image.lemma_ink_to(image.page_width(), y);
    }
}

/// The columns of a page in which row `y` has ink: every second one from 80 on,
/// up to 767, where the pixel is darker than 80.
pub open spec fn inked_columns(image: Grey, y: int) -> Set<int> {
    Set::new(
        |x: int|
            80 <= x < 768 && x < image.width && x % 2 == 0 && image.pixels[y * image.width + x]
                < 80,
    )
}

proof fn lemma_ink_counts(image: Grey, columns: int, y: int)
    requires
        0 <= columns <= image.width,
        columns <= 768,
    ensures
        ({
            let counted = inked_columns(image, y).intersect(
                vstd::set_lib::set_int_range(0, columns),
            );
            counted.finite() && counted.len() == image.ink_to(columns, y)
        }),
    decreases columns,
{
    let all = inked_columns(image, y);
    let counted = all.intersect(vstd::set_lib::set_int_range(0, columns));
    if columns == 0 {
        assert(counted =~= Set::empty());
    } else {
        lemma_ink_counts(image, columns - 1, y);
        let fewer = all.intersect(vstd::set_lib::set_int_range(0, columns - 1));
        let x = columns - 1;
        assert(image.inked(x, y) <==> all.contains(x));
        if all.contains(x) {
            assert(counted =~= fewer.insert(x));
        } else {
            assert(counted =~= fewer);
        }
    }
}

/// The ink of a row is the number of columns in which it has ink.
pub proof fn law_ink_is_counted(image: Grey, y: int)
    ensures
        inked_columns(image, y).finite(),
        image.ink(y) == inked_columns(image, y).len(),
{
    let columns = image.page_width();
    lemma_ink_counts(image, columns, y);
    assert(inked_columns(image, y) =~= inked_columns(image, y).intersect(
        vstd::set_lib::set_int_range(0, columns),
    ));
}

/// A profile has a number for each of the first 1024 rows of the image.
pub proof fn law_profiles_count_the_ink(image: Grey, profile: Seq<u32>)
    requires
        image.is_profile(profile),
    ensures
        profile.len() == if image.height <= 1024 {
            image.height as int
        } else {
            1024
        },
        forall|y: int|
            0 <= y < profile.len() ==> #[trigger] profile[y] == inked_columns(image, y).len(),
{
    assert forall|y: int| 0 <= y < profile.len() implies #[trigger] profile[y] == inked_columns(
        image,
        y,
    ).len() by {
        law_ink_is_counted(image, y);
    }
}

/// Every column with ink in the first 1024 rows is between the first and the last
/// row with ink, and both of these have some.
pub proof fn law_bounds_hold_the_ink(image: Grey, bounds: Option<(u32, u32)>, x: int, y: int)
    requires
        image.is_bounds(bounds),
    ensures
        0 <= y < image.height && y < 1024 && inked_columns(image, y).contains(x) ==> (
        bounds matches Some((top, bottom)) && top <= y <= bottom),
        bounds matches Some((top, bottom)) ==> bottom < image.height && bottom < 1024 && !(
        inked_columns(image, top as int) =~= Set::empty()) && !(inked_columns(image, bottom as int)
            =~= Set::empty()),
{
    assert(inked_columns(image, y).contains(x) ==> image.inked(x, y));
    assert(image.inked(x, y) ==> image.has_ink(y));
    if let Some((top, bottom)) = bounds {
        let a = choose|a: int| image.inked(a, top as int);
        let b = choose|b: int| image.inked(b, bottom as int);
        assert(inked_columns(image, top as int).contains(a));
        assert(inked_columns(image, bottom as int).contains(b));
    }
}

/// A pixel is drawn just if it is darker than 128; pixels are kept row by row.
pub proof fn law_dark_pixels_are_drawn(image: Grey, x: int, y: int)
    ensures
        image.drawn(x, y) <==> image.pixels[y * image.width + x] < 128,
        image.luma(x, y) == image.pixels[y * image.width + x],
{
}

/// The rows that are drawn have a place for every pixel of the image, and there
/// are none without a place.
pub proof fn law_every_pixel_has_a_place(image: Grey)
    ensures
        image.drawn_rows() * image.width == image.width * image.height,
        image.drawn_rows() > 0 ==> image.width > 0,
{
    let (w, h) = (image.width as int, image.height as int);
    assert(h * w == w * h && 0 * h == 0 && w * 0 == 0) by (nonlinear_arith);
}

#[verifier::external_type_specification]
#[verifier::external_body]
pub struct ExImageError(image::ImageError);

/// An image file that could not be decoded.
#[derive(Debug)]
pub struct DecodeError {
    pub source: image::ImageError,
}

/// The width, the height and the shades of the image in a file, by the file's
/// name and its contents; none if the file does not decode.
pub uninterp spec fn decoded(file_name: Seq<char>, data: Seq<u8>) -> Option<(u32, u32, Seq<u8>)>;

impl Grey {
    /// The image in a file.
    pub open spec fn of_file(file_name: Seq<char>, data: Seq<u8>) -> Option<Grey> {
        match decoded(file_name, data) {
            Some((width, height, pixels)) => Some(Grey { width, height, pixels }),
            None => None,
        }
    }
}

/// The image in a file is what was decoded: as wide and as high, and with its
/// shades row by row.
pub proof fn law_images_are_what_was_decoded(file_name: Seq<char>, data: Seq<u8>, x: int, y: int)
    ensures
        match decoded(file_name, data) {
            Some((width, height, pixels)) => Grey::of_file(file_name, data) matches Some(shown)
                && shown.width == width && shown.height == height && shown.luma(x, y) == pixels[y
                * width + x],
            None => Grey::of_file(file_name, data) is None,
        },
{
}

/// Calls `image::load_from_memory_with_format` on the contents of a file, with
/// the format that `image::ImageFormat::from_path` finds by its name, and
/// `to_luma8` on the result. All of it is integer arithmetic on the name and the
/// contents, so the result has a name of its own; nothing more is said of it but
/// that there is a shade for every pixel.
#[verifier::external_body]
fn decode_luma8(file_name: &str, data: &[u8]) -> (res: Result<LumaImage, image::ImageError>)
    ensures
        match res {
            Ok(shown) => decoded(file_name@, data@) == Some(
                (shown.width, shown.height, shown.pixels@),
            ) && shown.width * shown.height <= shown.pixels@.len(),
            Err(_) => decoded(file_name@, data@) is None,
        },
{
    let format = image::ImageFormat::from_path(file_name)?;
    let luma = image::load_from_memory_with_format(data, format)?.to_luma8();
    let (width, height) = luma.dimensions();
    Ok(LumaImage { width, height, pixels: luma.into_raw() })
}

/// Decodes an image file.
pub fn decode(file_name: &str, data: &[u8]) -> (res: Result<LumaImage, DecodeError>)
    ensures
        match res {
            Ok(shown) => Grey::of_file(file_name@, data@) == Some(shown@) && shown@.wf(),
            Err(_) => Grey::of_file(file_name@, data@) is None,
        },
{
    match decode_luma8(file_name, data) {
        Ok(shown) => Ok(shown),
        Err(source) => Err(DecodeError { source }),
    }
}

/// The ink of every row of the page on an image file.
pub fn row_ink_profile(file_name: &str, data: &[u8]) -> (res: Result<Vec<u32>, DecodeError>)
    ensures
        match res {
            Ok(profile) => Grey::of_file(file_name@, data@) matches Some(shown)
                && shown.is_profile(profile@),
            Err(_) => Grey::of_file(file_name@, data@) is None,
        },
{
    match decode(file_name, data) {
        Ok(shown) => Ok(shown.ink_profile()),
        Err(e) => Err(e),
    }
}

} // verus!
