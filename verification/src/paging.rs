//! How the pages lie in the window: the zoom, the rows and the shift aside.
use crate::geometry::{abs_of, greatest, half, max_of, min_of, near, Spot, FAR};
use crate::text_layout::{floor_divide, pixels};
use crate::units::{Points, POINT};
use vstd::prelude::*;

verus! {

/// A tenth.
pub const MIN_ZOOM: i64 = 1_677_722;

pub const MAX_ZOOM: i64 = 8 * 0x100_0000;

/// What a page takes in the window beside itself: the margins of its card.
pub const PAGE_CHROME_X: i64 = 24 * 0x100_0000;

/// The margins of the card and the line with the number.
pub const PAGE_CHROME_Y: i64 = 52 * 0x100_0000;

/// The gap between the two pages of a spread.
pub const SPREAD_GAP: i64 = 16 * 0x100_0000;

/// How the zoom is found.
#[derive(Clone, Copy, Debug, PartialEq, Eq, Structural)]
pub enum Fit {
    /// It was set by hand.
    Free,
    /// The page is as wide as the window.
    Width,
    /// The page is as high as the window.
    Height,
}

/// The size of a page.
#[derive(Clone, Copy, Debug, PartialEq, Eq, Structural)]
pub struct PageSize {
    pub width: Points,
    pub height: Points,
}

/// A page that is pulled with the wheel pressed.
#[derive(Clone, Copy, Debug, PartialEq, Eq, Structural)]
pub struct PanDrag {
    pub at: Spot,
    pub pan: i64,
}

/// How the pages lie in the window. Lengths are in pixels.
#[derive(Clone, Copy, Debug, PartialEq, Eq, Structural)]
pub struct Paging {
    pub zoom: i64,
    pub fit: Fit,
    /// Two pages stand in a row.
    pub spread: bool,
    /// How far the pages are shifted to the left.
    pub pan_x: i64,
    pub pan_drag: Option<PanDrag>,
    pub canvas_width: i64,
    pub canvas_height: i64,
    pub current_page: u32,
    pub page_count: u32,
}

/// Where the list of rows has to be put: it is measured anew and loses its
/// place.
#[derive(Clone, Copy, Debug, PartialEq, Eq, Structural)]
pub struct Rewind {
    pub rows: usize,
    pub row: usize,
}

/// Whether the sizes of pages can be computed with.
pub open spec fn sizes_fit(sizes: Seq<PageSize>) -> bool {
    forall|i: int|
        0 <= i < sizes.len() ==> near((#[trigger] sizes[i]).width) && near(sizes[i].height)
}

/// A value brought between two others.
pub open spec fn clamped(x: int, lo: int, hi: int) -> int {
    if x < lo {
        lo
    } else if x > hi {
        hi
    } else {
        x
    }
}

impl Paging {
    /// Whether the state can be computed with.
    pub open spec fn wf(self) -> bool {
        &&& MIN_ZOOM <= self.zoom <= MAX_ZOOM
        &&& 0 <= self.canvas_width <= FAR
        &&& 0 <= self.canvas_height <= FAR
        &&& near(self.pan_x)
        &&& self.pan_drag matches Some(drag) ==> near(drag.pan) && drag.at.is_near()
    }

    /// How many rows so many pages make.
    pub open spec fn rows(self, pages: int) -> int {
        if self.spread {
            (pages + 1) / 2
        } else {
            pages
        }
    }

    /// The row of a page.
    pub open spec fn row(self, page: int) -> int {
        if self.spread {
            page / 2
        } else {
            page
        }
    }

    /// Where the list is put when it is measured anew.
    pub open spec fn rewind(self) -> Rewind {
        let rows = self.rows(self.page_count as int);
        Rewind {
            rows: rows as usize,
            row: min_of(self.row(self.current_page as int), max_of(rows - 1, 0)) as usize,
        }
    }

    /// The size that the zoom is found for: that of the page that is read, for
    /// a book may hold sheets of another format, or that of the first.
    pub open spec fn size(self, sizes: Seq<PageSize>) -> Option<PageSize> {
        if self.current_page < sizes.len() {
            Some(sizes[self.current_page as int])
        } else if sizes.len() > 0 {
            Some(sizes[0])
        } else {
            None
        }
    }

    /// How wide a row is.
    pub open spec fn row_width(self, sizes: Seq<PageSize>) -> int {
        match self.size(sizes) {
            None => 0,
            Some(size) => {
                let page = pixels(size.width as int, self.zoom as int);
                if self.spread {
                    2 * page + SPREAD_GAP
                } else {
                    page
                }
            },
        }
    }

    /// How far the pages can be shifted to either side. A row stands in the
    /// middle and sticks out as far on both sides, hence the half.
    pub open spec fn pan_limit(self, sizes: Seq<PageSize>) -> int {
        max_of((self.row_width(sizes) - (self.canvas_width - PAGE_CHROME_X)) / 2, 0)
    }

    /// The state with the shift in its limits.
    pub open spec fn pan_clamped(self, sizes: Seq<PageSize>) -> Paging {
        let limit = self.pan_limit(sizes);
        Paging { pan_x: clamped(self.pan_x as int, -limit, limit) as i64, ..self }
    }

    /// Whether a zoom is one that the state is not at yet.
    pub open spec fn changes_zoom(self, zoom: int) -> bool {
        2000 * abs_of(clamped(zoom, MIN_ZOOM as int, MAX_ZOOM as int) - self.zoom) >= POINT
    }

    /// The state at a zoom.
    pub open spec fn zoomed(self, zoom: int, sizes: Seq<PageSize>) -> Paging {
        if self.changes_zoom(zoom) {
            (Paging {
                zoom: clamped(zoom, MIN_ZOOM as int, MAX_ZOOM as int) as i64,
                ..self
            }).pan_clamped(sizes)
        } else {
            self
        }
    }

    /// The zoom at which the page fits, where there is one to be found.
    pub open spec fn fitting_zoom(self, sizes: Seq<PageSize>) -> Option<int> {
        if self.fit == Fit::Free || self.canvas_width <= POINT || self.canvas_height <= POINT {
            None
        } else {
            match self.size(sizes) {
                None => None,
                Some(size) => if size.width <= 0 || size.height <= 0 {
                    None
                } else if self.fit == Fit::Height {
                    Some((self.canvas_height - PAGE_CHROME_Y) * POINT / (size.height as int))
                } else if self.spread {
                    Some(
                        (self.canvas_width - PAGE_CHROME_X - SPREAD_GAP) * POINT / (2
                            * size.width as int),
                    )
                } else {
                    Some((self.canvas_width - PAGE_CHROME_X) * POINT / (size.width as int))
                },
            }
        }
    }

    /// The state at the zoom at which the page fits.
    pub open spec fn fitted(self, sizes: Seq<PageSize>) -> Paging {
        match self.fitting_zoom(sizes) {
            Some(zoom) => self.zoomed(zoom, sizes),
            None => self,
        }
    }

    /// Whether the two pages of a spread fit into the window.
    pub open spec fn spread_has_room(self, sizes: Seq<PageSize>) -> bool {
        match self.size(sizes) {
            None => true,
            Some(size) => 2 * pixels(size.width as int, self.zoom as int) + PAGE_CHROME_X
                + SPREAD_GAP <= self.canvas_width,
        }
    }
}

/// A page is not much wider in the window.
proof fn lemma_pixels_bounded(length: Points, zoom: i64)
    requires
        near(length),
        0 <= zoom <= MAX_ZOOM,
    ensures
        -0x80_0000_0000_0000 <= pixels(length as int, zoom as int) <= 0x80_0000_0000_0000,
        -0x8000_0000_0000_0000_0000 <= length * zoom <= 0x8000_0000_0000_0000_0000,
{
    let product = length as int * zoom as int;
    assert(-FAR * MAX_ZOOM <= product <= FAR * MAX_ZOOM) by (nonlinear_arith)
        requires
            product == length as int * zoom as int,
            -FAR <= length <= FAR,
            0 <= zoom <= MAX_ZOOM,
    ;
}

/// A length in the window.
fn pixels_of(length: Points, zoom: i64) -> (r: i64)
    requires
        near(length),
        0 <= zoom <= MAX_ZOOM,
    ensures
        r == pixels(length as int, zoom as int),
        -0x80_0000_0000_0000 <= r <= 0x80_0000_0000_0000,
{
    proof {
        lemma_pixels_bounded(length, zoom);
    }
    floor_divide(length as i128 * zoom as i128) as i64
}

/// A quotient, rounded down.
fn quotient(n: i128, d: i128) -> (r: i128)
    requires
        0 < d,
        -0x1_0000_0000_0000_0000_0000_0000 <= n <= 0x1_0000_0000_0000_0000_0000_0000,
    ensures
        r == n as int / d as int,
{
    if n >= 0 {
        return n / d;
    }
    let m: i128 = -n;
    let q: i128 = m / d;
    let rest: i128 = m % d;
    proof {
        vstd::arithmetic::div_mod::lemma_fundamental_div_mod(m as int, d as int);
        assert(0 <= rest < d);
        assert(q <= m) by (nonlinear_arith)
            requires
                m == d * q + rest,
                0 <= rest,
                d >= 1,
                q >= 0,
        ;
        if rest == 0 {
            assert(n as int == d as int * (-q)) by (nonlinear_arith)
                requires
                    n as int == -(m as int),
                    m as int == d as int * q as int + 0,
            ;
            vstd::arithmetic::div_mod::lemma_fundamental_div_mod_converse(
                n as int,
                d as int,
                -q as int,
                0,
            );
        } else {
            assert(n as int == d as int * (-q - 1) + (d - rest)) by (nonlinear_arith)
                requires
                    n as int == -(m as int),
                    m as int == d as int * q as int + rest,
            ;
            vstd::arithmetic::div_mod::lemma_fundamental_div_mod_converse(
                n as int,
                d as int,
                (-q - 1) as int,
                (d - rest) as int,
            );
        }
    }
    if rest == 0 {
        -q
    } else {
        -q - 1
    }
}

impl Paging {
    /// The pages of a document that was just opened.
    pub fn new(page_count: u32) -> (r: Paging)
        ensures
            r == (Paging {
                zoom: POINT,
                fit: Fit::Free,
                spread: false,
                pan_x: 0,
                pan_drag: None,
                canvas_width: 0,
                canvas_height: 0,
                current_page: 0,
                page_count,
            }),
            r.wf(),
    {
        Paging {
            zoom: POINT,
            fit: Fit::Free,
            spread: false,
            pan_x: 0,
            pan_drag: None,
            canvas_width: 0,
            canvas_height: 0,
            current_page: 0,
            page_count,
        }
    }

    /// How many rows so many pages make.
    pub fn row_count(&self, pages: u32) -> (r: usize)
        ensures
            r == self.rows(pages as int),
    {
        if self.spread {
            (pages / 2 + pages % 2) as usize
        } else {
            pages as usize
        }
    }

    /// The row of a page.
    pub fn row_of(&self, page: u32) -> (r: usize)
        ensures
            r == self.row(page as int),
    {
        if self.spread {
            (page / 2) as usize
        } else {
            page as usize
        }
    }

    fn rewound(&self) -> (r: Rewind)
        ensures
            r == self.rewind(),
    {
        let rows: usize = self.row_count(self.page_count);
        let row: usize = self.row_of(self.current_page);
        let last: usize = if rows > 0 {
            rows - 1
        } else {
            0
        };
        Rewind {
            rows,
            row: if row < last {
                row
            } else {
                last
            },
        }
    }

    fn page_size(&self, sizes: &Vec<PageSize>) -> (r: Option<PageSize>)
        ensures
            r == self.size(sizes@),
    {
        if (self.current_page as usize) < sizes.len() {
            Some(sizes[self.current_page as usize])
        } else if sizes.len() > 0 {
            Some(sizes[0])
        } else {
            None
        }
    }

    /// How wide a row is.
    pub fn content_width(&self, sizes: &Vec<PageSize>) -> (r: i64)
        requires
            self.wf(),
            sizes_fit(sizes@),
        ensures
            r == self.row_width(sizes@),
            -0x200_0000_0000_0000 <= r <= 0x200_0000_0000_0000,
    {
        match self.page_size(sizes) {
            None => 0,
            Some(size) => {
                let page: i64 = pixels_of(size.width, self.zoom);
                if self.spread {
                    2 * page + SPREAD_GAP
                } else {
                    page
                }
            },
        }
    }

    /// How far the pages can be shifted to either side.
    pub fn max_pan(&self, sizes: &Vec<PageSize>) -> (r: i64)
        requires
            self.wf(),
            sizes_fit(sizes@),
        ensures
            r == self.pan_limit(sizes@),
            0 <= r <= 0x200_0000_0000_0000,
    {
        let room: i64 = self.canvas_width - PAGE_CHROME_X;
        greatest(half(self.content_width(sizes) - room), 0)
    }

    /// Brings the shift into its limits.
    pub fn clamp_pan(&mut self, sizes: &Vec<PageSize>)
        requires
            old(self).wf(),
            sizes_fit(sizes@),
        ensures
            *final(self) == old(self).pan_clamped(sizes@),
            final(self).wf(),
    {
        let limit: i64 = self.max_pan(sizes);
        if self.pan_x < -limit {
            self.pan_x = -limit;
        } else if self.pan_x > limit {
            self.pan_x = limit;
        }
    }

    /// Shifts the pages, and never so far that their edge comes into the
    /// window; a shift that cannot be seen is not made.
    pub fn set_pan(&mut self, value: i64, sizes: &Vec<PageSize>) -> (r: bool)
        requires
            old(self).wf(),
            sizes_fit(sizes@),
        ensures
            ({
                let limit = old(self).pan_limit(sizes@);
                let to = clamped(value as int, -limit, limit);
                let moved = Paging { pan_x: to as i64, ..*old(self) };
                &&& r == (100 * abs_of(to - old(self).pan_x) >= POINT)
                &&& *final(self) == if r {
                    moved
                } else {
                    *old(self)
                }
            }),
    {
        let limit: i64 = self.max_pan(sizes);
        let to: i64 = if value < -limit {
            -limit
        } else if value > limit {
            limit
        } else {
            value
        };
        let change: i128 = to as i128 - self.pan_x as i128;
        let size: i128 = if change < 0 {
            -change
        } else {
            change
        };
        if 100 * size < POINT as i128 {
            return false;
        }
        self.pan_x = to;
        true
    }

    fn zoom_to(&mut self, zoom: i128, sizes: &Vec<PageSize>) -> (r: Option<Rewind>)
        requires
            old(self).wf(),
            sizes_fit(sizes@),
        ensures
            *final(self) == old(self).zoomed(zoom as int, sizes@),
            r == if old(self).changes_zoom(zoom as int) {
                Some(final(self).rewind())
            } else {
                None
            },
            final(self).wf(),
    {
        let zoom: i64 = if zoom < MIN_ZOOM as i128 {
            MIN_ZOOM
        } else if zoom > MAX_ZOOM as i128 {
            MAX_ZOOM
        } else {
            zoom as i64
        };
        let change: i64 = if zoom >= self.zoom {
            zoom - self.zoom
        } else {
            self.zoom - zoom
        };
        if 2000 * change < POINT {
            return None;
        }
        self.zoom = zoom;
        self.clamp_pan(sizes);
        Some(self.rewound())
    }

    /// Sets the zoom, in its limits; a change that cannot be seen is not made.
    ///
    /// The pages are then of another height, so their list is measured anew,
    /// and is put back to the page that is read.
    pub fn set_zoom(&mut self, zoom: i64, sizes: &Vec<PageSize>) -> (r: Option<Rewind>)
        requires
            old(self).wf(),
            sizes_fit(sizes@),
        ensures
            *final(self) == old(self).zoomed(zoom as int, sizes@),
            r == if old(self).changes_zoom(zoom as int) {
                Some(final(self).rewind())
            } else {
                None
            },
            final(self).wf(),
    {
        self.zoom_to(zoom as i128, sizes)
    }

    /// Sets the zoom by hand: the page is then no longer fitted, else the next
    /// change of the window would silently bring the old zoom back.
    pub fn zoom_manually(&mut self, zoom: i64, sizes: &Vec<PageSize>) -> (r: Option<Rewind>)
        requires
            old(self).wf(),
            sizes_fit(sizes@),
        ensures
            *final(self) == (Paging { fit: Fit::Free, ..*old(self) }).zoomed(zoom as int, sizes@),
            r == if old(self).changes_zoom(zoom as int) {
                Some(final(self).rewind())
            } else {
                None
            },
            final(self).wf(),
    {
        self.fit = Fit::Free;
        self.set_zoom(zoom, sizes)
    }

    /// Changes the zoom by a factor.
    pub fn zoom_manually_by(&mut self, factor: i64, sizes: &Vec<PageSize>) -> (r: Option<Rewind>)
        requires
            old(self).wf(),
            sizes_fit(sizes@),
        ensures
            *final(self) == (Paging { fit: Fit::Free, ..*old(self) }).zoomed(
                pixels(old(self).zoom as int, factor as int),
                sizes@,
            ),
            r == if old(self).changes_zoom(pixels(old(self).zoom as int, factor as int)) {
                Some(final(self).rewind())
            } else {
                None
            },
            final(self).wf(),
    {
        self.fit = Fit::Free;
        let current: i64 = self.zoom;
        assert(-0x8000_0000_0000_0000 * MAX_ZOOM <= current * factor <= 0x8000_0000_0000_0000
            * MAX_ZOOM) by (nonlinear_arith)
            requires
                0 <= current <= MAX_ZOOM,
                -0x8000_0000_0000_0000 <= factor <= 0x8000_0000_0000_0000,
        ;
        self.zoom_to(floor_divide(current as i128 * factor as i128), sizes)
    }

    /// Whether the two pages of a spread fit into the window.
    pub fn spread_fits(&self, sizes: &Vec<PageSize>) -> (r: bool)
        requires
            self.wf(),
            sizes_fit(sizes@),
        ensures
            r == self.spread_has_room(sizes@),
    {
        match self.page_size(sizes) {
            None => true,
            Some(size) => 2 * pixels_of(size.width, self.zoom) + PAGE_CHROME_X + SPREAD_GAP
                <= self.canvas_width,
        }
    }

    /// Finds the zoom at which the page fits.
    pub fn apply_fit(&mut self, sizes: &Vec<PageSize>) -> (r: Option<Rewind>)
        requires
            old(self).wf(),
            sizes_fit(sizes@),
        ensures
            *final(self) == old(self).fitted(sizes@),
            r == if old(self).fitting_zoom(sizes@) is Some && old(self).changes_zoom(
                old(self).fitting_zoom(sizes@)->0,
            ) {
                Some(final(self).rewind())
            } else {
                None
            },
            final(self).wf(),
    {
        if self.fit == Fit::Free {
            return None;
        }
        if self.canvas_width <= POINT || self.canvas_height <= POINT {
            return None;
        }
        let size = match self.page_size(sizes) {
            Some(size) => size,
            None => {
                return None;
            },
        };
        if size.width <= 0 || size.height <= 0 {
            return None;
        }
        let zoom: i128 = if self.fit == Fit::Height {
            quotient(
                (self.canvas_height - PAGE_CHROME_Y) as i128 * 0x100_0000,
                size.height as i128,
            )
        } else if self.spread {
            quotient(
                (self.canvas_width - PAGE_CHROME_X - SPREAD_GAP) as i128 * 0x100_0000,
                2 * size.width as i128,
            )
        } else {
            quotient(
                (self.canvas_width - PAGE_CHROME_X) as i128 * 0x100_0000,
                size.width as i128,
            )
        };
        self.zoom_to(zoom, sizes)
    }

    /// Fits the page in a way, or no longer where it was fitted so.
    pub fn set_fit(&mut self, fit: Fit, sizes: &Vec<PageSize>) -> (r: Option<Rewind>)
        requires
            old(self).wf(),
            sizes_fit(sizes@),
        ensures
            ({
                let chosen = Paging {
                    fit: if old(self).fit == fit {
                        Fit::Free
                    } else {
                        fit
                    },
                    ..*old(self)
                };
                &&& *final(self) == chosen.fitted(sizes@)
                &&& r == if chosen.fitting_zoom(sizes@) is Some && chosen.changes_zoom(
                    chosen.fitting_zoom(sizes@)->0,
                ) {
                    Some(final(self).rewind())
                } else {
                    None
                }
            }),
            final(self).wf(),
    {
        self.fit = if self.fit == fit {
            Fit::Free
        } else {
            fit
        };
        self.apply_fit(sizes)
    }

    /// Lays two pages in a row, or one again. Two that do not fit are fitted:
    /// the list does not scroll aside, and their edges would be cut off.
    pub fn toggle_spread(&mut self, sizes: &Vec<PageSize>) -> (r: Rewind)
        requires
            old(self).wf(),
            sizes_fit(sizes@),
        ensures
            ({
                let turned = Paging { spread: !old(self).spread, ..*old(self) };
                *final(self) == (Paging {
                    fit: if turned.spread && turned.fit == Fit::Free && !turned.spread_has_room(
                        sizes@,
                    ) {
                        Fit::Width
                    } else {
                        turned.fit
                    },
                    ..turned
                }).fitted(sizes@)
            }),
            r == final(self).rewind(),
            final(self).wf(),
    {
        self.spread = !self.spread;
        if self.spread && self.fit == Fit::Free && !self.spread_fits(sizes) {
            self.fit = Fit::Width;
        }
        self.apply_fit(sizes);
        self.rewound()
    }

    /// The place that the pages have in the window.
    pub fn note_canvas(&mut self, width: i64, height: i64, sizes: &Vec<PageSize>) -> (r: Option<
        Rewind,
    >)
        requires
            old(self).wf(),
            sizes_fit(sizes@),
            0 <= width <= FAR,
            0 <= height <= FAR,
        ensures
            ({
                let same = old(self).canvas_width == width && old(self).canvas_height == height;
                let sized = Paging { canvas_width: width, canvas_height: height, ..*old(self) };
                &&& same ==> *final(self) == *old(self) && r is None
                &&& !same ==> *final(self) == sized.fitted(sizes@).pan_clamped(sizes@)
                &&& !same ==> r == if sized.fitting_zoom(sizes@) is Some && sized.changes_zoom(
                    sized.fitting_zoom(sizes@)->0,
                ) {
                    Some(final(self).rewind())
                } else {
                    None
                }
            }),
            final(self).wf(),
    {
        if self.canvas_width == width && self.canvas_height == height {
            return None;
        }
        self.canvas_width = width;
        self.canvas_height = height;
        let rewind = self.apply_fit(sizes);
        self.clamp_pan(sizes);
        rewind
    }

    /// Shows a page, and says to which row the list goes.
    pub fn go_to_page(&mut self, page: u32) -> (r: usize)
        ensures
            *final(self) == (Paging { current_page: page, ..*old(self) }),
            r == old(self).row(page as int),
    {
        self.current_page = page;
        self.row_of(page)
    }

    /// The page on top of the list, out of the row that is on top.
    pub fn note_top_row(&mut self, row: u32) -> (r: bool)
        requires
            old(self).page_count > 0,
        ensures
            ({
                let page = min_of(
                    if old(self).spread {
                        2 * row as int
                    } else {
                        row as int
                    },
                    old(self).page_count - 1,
                );
                &&& *final(self) == (Paging { current_page: page as u32, ..*old(self) })
                &&& r == (old(self).current_page != page)
            }),
    {
        let top: u64 = if self.spread {
            row as u64 * 2
        } else {
            row as u64
        };
        let last: u32 = self.page_count - 1;
        let page: u32 = if top < last as u64 {
            top as u32
        } else {
            last
        };
        let changed = self.current_page != page;
        self.current_page = page;
        changed
    }

    /// The pages of the document are others now. Both lists are measured anew
    /// and put back to where they were, as far as there are still so many
    /// pages: the rows, and the list of thumbnails, which is leafed through on
    /// its own.
    pub fn pages_changed(&mut self, count: u32, row: usize, thumb: usize) -> (r: Option<
        (usize, usize),
    >)
        ensures
            ({
                let rows = old(self).rows(count as int);
                let at = min_of(row as int, rows - 1);
                let page = if rows == count {
                    at
                } else {
                    2 * at
                };
                &&& count == 0 ==> r is None && *final(self) == (Paging {
                    page_count: count,
                    ..*old(self)
                })
                &&& count > 0 ==> r == Some(
                    (at as usize, min_of(thumb as int, count - 1) as usize),
                ) && *final(self) == (Paging {
                    page_count: count,
                    current_page: min_of(page, count - 1) as u32,
                    ..*old(self)
                })
            }),
    {
        self.page_count = count;
        if count == 0 {
            return None;
        }
        let rows: usize = self.row_count(count);
        let at: usize = if row < rows - 1 {
            row
        } else {
            rows - 1
        };
        let page: u64 = if rows == count as usize {
            at as u64
        } else {
            at as u64 * 2
        };
        let last: u32 = count - 1;
        self.current_page = if page < last as u64 {
            page as u32
        } else {
            last
        };
        let thumb_at: usize = if thumb < last as usize {
            thumb
        } else {
            last as usize
        };
        Some((at, thumb_at))
    }

    /// A wheel turned aside: the pages are shifted where they are wider than
    /// the window.
    pub fn pan_by(&mut self, dx: i64, sizes: &Vec<PageSize>) -> (r: bool)
        requires
            old(self).wf(),
            sizes_fit(sizes@),
            near(dx),
        ensures
            r == (old(self).pan_limit(sizes@) > 0),
            ({
                let limit = old(self).pan_limit(sizes@);
                let to = clamped(old(self).pan_x - dx, -limit, limit);
                *final(self) == if r && 100 * abs_of(to - old(self).pan_x) >= POINT {
                    Paging { pan_x: to as i64, ..*old(self) }
                } else {
                    *old(self)
                }
            }),
    {
        if self.max_pan(sizes) <= 0 {
            return false;
        }
        self.set_pan(self.pan_x - dx, sizes);
        true
    }

    /// The pressed wheel pulls the page. The place of the grip moves along,
    /// for the list scrolls from where it was a moment ago.
    pub fn pull(&mut self, to: Spot, held: bool, sizes: &Vec<PageSize>) -> (r: Option<i64>)
        requires
            old(self).wf(),
            sizes_fit(sizes@),
            to.is_near(),
        ensures
            match old(self).pan_drag {
                None => r is None && *final(self) == *old(self),
                Some(drag) => if !held {
                    r is None && *final(self) == (Paging { pan_drag: None, ..*old(self) })
                } else {
                    let limit = old(self).pan_limit(sizes@);
                    let wanted = clamped(drag.pan - (to.x - drag.at.x), -limit, limit);
                    let pan_x = if 100 * abs_of(wanted - old(self).pan_x) >= POINT {
                        wanted as i64
                    } else {
                        old(self).pan_x
                    };
                    &&& r == Some((drag.at.y - to.y) as i64)
                    &&& *final(self) == (Paging {
                        pan_x,
                        pan_drag: Some(PanDrag { at: to, pan: pan_x }),
                        ..*old(self)
                    })
                },
            },
    {
        let drag = match self.pan_drag {
            Some(drag) => drag,
            None => {
                return None;
            },
        };
        if !held {
            self.pan_drag = None;
            return None;
        }
        self.set_pan(drag.pan - (to.x - drag.at.x), sizes);
        self.pan_drag = Some(PanDrag { at: to, pan: self.pan_x });
        Some(drag.at.y - to.y)
    }
}

/// The zoom never leaves its limits, and the shift never shows what lies
/// beside the pages.
pub proof fn the_zoom_keeps_its_limits(p: Paging, zoom: int, sizes: Seq<PageSize>)
    requires
        p.wf(),
        p.changes_zoom(zoom),
        sizes_fit(sizes),
    ensures
        MIN_ZOOM <= p.zoomed(zoom, sizes).zoom <= MAX_ZOOM,
        p.zoomed(zoom, sizes).pan_clamped(sizes) == p.zoomed(zoom, sizes),
{
    let at = Paging { zoom: clamped(zoom, MIN_ZOOM as int, MAX_ZOOM as int) as i64, ..p };
    lemma_limit(at, sizes);
}

/// The limit of the shift.
proof fn lemma_limit(p: Paging, sizes: Seq<PageSize>)
    requires
        p.wf(),
        sizes_fit(sizes),
    ensures
        0 <= p.pan_limit(sizes) <= 0x200_0000_0000_0000,
{
    if let Some(size) = p.size(sizes) {
        assert(near(size.width));
        lemma_pixels_bounded(size.width, p.zoom);
    }
}

/// At the zoom that is found for it, the page that is read fills the window: with
/// its margins it is as wide, or as high, as the window and no wider, to the next
/// smaller zoom. In a spread the two pages are, with the gap between them.
pub proof fn a_fitted_page_fills_the_window(p: Paging, sizes: Seq<PageSize>, zoom: int)
    requires
        p.fitting_zoom(sizes) == Some(zoom),
    ensures
        ({
            let read = if p.current_page < sizes.len() {
                sizes[p.current_page as int]
            } else {
                sizes[0]
            };
            let across = p.canvas_width - 24 * POINT;
            let beside = p.canvas_width - 24 * POINT - 16 * POINT;
            let along = p.canvas_height - 52 * POINT;
            &&& sizes.len() > 0
            &&& p.fit == Fit::Width || p.fit == Fit::Height
            &&& p.fit == Fit::Height ==> zoom * read.height <= along * POINT < (zoom + 1)
                * read.height
            &&& p.fit == Fit::Width && !p.spread ==> zoom * read.width <= across * POINT < (zoom
                + 1) * read.width
            &&& p.fit == Fit::Width && p.spread ==> zoom * (2 * read.width) <= beside * POINT < (
            zoom + 1) * (2 * read.width)
        }),
{
    let read = p.size(sizes)->0;
    let d = if p.fit == Fit::Height {
        read.height as int
    } else if p.spread {
        2 * read.width as int
    } else {
        read.width as int
    };
    let n = if p.fit == Fit::Height {
        (p.canvas_height - PAGE_CHROME_Y) * POINT
    } else if p.spread {
        (p.canvas_width - PAGE_CHROME_X - SPREAD_GAP) * POINT
    } else {
        (p.canvas_width - PAGE_CHROME_X) * POINT
    };
    vstd::arithmetic::div_mod::lemma_fundamental_div_mod(n, d);
    assert(zoom == n / d);
    assert(0 <= n % d < d);
    assert(d * zoom == zoom * d && (zoom + 1) * d == zoom * d + d) by (nonlinear_arith);
}

/// A page that is not fitted, or of which or of whose window nothing is known, has
/// no zoom to be found.
pub proof fn a_page_is_fitted_where_there_is_one(p: Paging, sizes: Seq<PageSize>)
    ensures
        p.fitting_zoom(sizes) is Some <==> {
            let read = if p.current_page < sizes.len() {
                sizes[p.current_page as int]
            } else {
                sizes[0]
            };
            &&& p.fit != Fit::Free
            &&& p.canvas_width > POINT
            &&& p.canvas_height > POINT
            &&& sizes.len() > 0
            &&& read.width > 0
            &&& read.height > 0
        },
{
}

/// The zoom is set to what is asked for, between a tenth and eight, unless it would
/// change by less than a two-thousandth; then nothing changes.
pub proof fn the_zoom_is_what_is_asked_for(p: Paging, zoom: int, sizes: Seq<PageSize>)
    requires
        p.wf(),
    ensures
        ({
            let least = 1_677_722int;
            let most = 8 * POINT;
            let wanted = if zoom < least {
                least
            } else if zoom > most {
                most
            } else {
                zoom
            };
            let after = p.zoomed(zoom, sizes);
            let seen = 2000 * (wanted - p.zoom) >= POINT || 2000 * (p.zoom - wanted) >= POINT;
            &&& seen ==> after.zoom == wanted
            &&& !seen ==> after == p
            &&& after.fit == p.fit
            &&& after.spread == p.spread
            &&& after.current_page == p.current_page
            &&& after.page_count == p.page_count
            &&& after.canvas_width == p.canvas_width
            &&& after.canvas_height == p.canvas_height
        }),
{
}

/// The pages can be shifted by half of what sticks out of the window, to either
/// side, and not at all where nothing does.
pub proof fn pages_are_shifted_by_half_of_what_sticks_out(p: Paging, sizes: Seq<PageSize>)
    requires
        p.current_page < sizes.len(),
    ensures
        ({
            let page = sizes[p.current_page as int].width * p.zoom;
            let shown = pixels(sizes[p.current_page as int].width as int, p.zoom as int);
            let row = if p.spread {
                2 * shown + 16 * POINT
            } else {
                shown
            };
            let out = row - (p.canvas_width - 24 * POINT);
            &&& shown * POINT <= page < shown * POINT + POINT
            &&& p.row_width(sizes) == row
            &&& out <= 0 ==> p.pan_limit(sizes) == 0
            &&& out > 0 ==> 2 * p.pan_limit(sizes) <= out <= 2 * p.pan_limit(sizes) + 1
        }),
{
}

/// So many rows as are needed: a row for a page, or one for two pages.
pub proof fn rows_are_as_many_as_needed(p: Paging, pages: int)
    requires
        0 <= pages,
    ensures
        !p.spread ==> p.rows(pages) == pages,
        p.spread ==> pages <= 2 * p.rows(pages) <= pages + 1,
{
}

/// Fitting a page twice is fitting it once.
pub proof fn fitting_twice_is_fitting_once(p: Paging, sizes: Seq<PageSize>)
    requires
        p.wf(),
        sizes_fit(sizes),
    ensures
        p.fitted(sizes).fitted(sizes) == p.fitted(sizes),
{
    if let Some(zoom) = p.fitting_zoom(sizes) {
        let once = p.zoomed(zoom, sizes);
        assert(once.fitting_zoom(sizes) == Some(zoom));
        assert(!once.changes_zoom(zoom));
    }
}

/// Every page has a row of its own, or shares it with its neighbour in a
/// spread, and no row is left empty.
pub proof fn every_page_lies_in_a_row(p: Paging, pages: int, page: int)
    requires
        0 <= page < pages,
    ensures
        0 <= p.row(page) < p.rows(pages),
        p.spread ==> 2 * p.row(page) <= page <= 2 * p.row(page) + 1,
        !p.spread ==> p.row(page) == page,
{
}

/// Whether a turn of the wheel shifts the pages at all.
pub fn turns_aside(dx: i64) -> (r: bool)
    requires
        near(dx),
    ensures
        r == (100 * abs_of(dx as int) >= POINT),
{
    100 * dx >= POINT || 100 * dx <= -POINT
}

/// Whether a turn of the wheel goes more to the side than up or down: the list
/// then does not scroll.
pub fn mostly_aside(dx: i64, dy: i64) -> (r: bool)
    requires
        near(dx),
        near(dy),
    ensures
        r == (abs_of(dx as int) > abs_of(dy as int)),
{
    let across: i64 = if dx < 0 {
        -dx
    } else {
        dx
    };
    let along: i64 = if dy < 0 {
        -dy
    } else {
        dy
    };
    across > along
}

impl Paging {
    /// The pages of a row.
    pub open spec fn pages_of_row(self, row: int) -> Seq<int> {
        if !self.spread {
            seq![row]
        } else if 2 * row + 1 < self.page_count {
            seq![2 * row, 2 * row + 1]
        } else if 2 * row < self.page_count {
            seq![2 * row]
        } else {
            Seq::empty()
        }
    }

    /// The pages of a row.
    pub fn row_pages(&self, row: u32) -> (r: Vec<u32>)
        requires
            row < 0x7fff_ffff,
        ensures
            r@.map_values(|page: u32| page as int) == self.pages_of_row(row as int),
    {
        let mut out: Vec<u32> = Vec::new();
        if !self.spread {
            out.push(row);
        } else {
            if 2 * row < self.page_count {
                out.push(2 * row);
            }
            if 2 * row + 1 < self.page_count {
                out.push(2 * row + 1);
            }
        }
        assert(out@.map_values(|page: u32| page as int) == self.pages_of_row(row as int));
        out
    }

    /// The margins that shift a row aside, the left and the right one: it
    /// stands in the middle, so a margin on one side moves it by half.
    pub fn row_margins(&self) -> (r: (i64, i64))
        requires
            self.wf(),
        ensures
            r.0 - r.1 == -2 * self.pan_x,
            r.0 >= 0 && r.1 >= 0 && (r.0 == 0 || r.1 == 0),
    {
        if self.pan_x >= 0 {
            (0, 2 * self.pan_x)
        } else {
            (2 * (-self.pan_x), 0)
        }
    }
}

/// A page is shown in its own row.
pub proof fn a_row_shows_its_pages(p: Paging, page: u32)
    requires
        page < p.page_count,
    ensures
        p.pages_of_row(p.row(page as int)).contains(page as int),
{
    let row = p.row(page as int);
    let shown = p.pages_of_row(row);
    if !p.spread {
        assert(shown[0] == page);
    } else if page % 2 == 0 {
        assert(shown[0] == page);
    } else {
        assert(shown[1] == page);
    }
}

/// There is room for a spread where two pages, at the zoom, the sixteen pixels between
/// them and the twenty-four around are no wider than the window, to the rounding.
pub proof fn a_spread_has_room_beside_itself(p: Paging, sizes: Seq<PageSize>)
    requires
        p.size(sizes) is Some,
    ensures
        ({
            let twice = 2 * (p.size(sizes)->0.width * p.zoom);
            let room = p.canvas_width - 40 * POINT;
            &&& twice <= room * POINT ==> p.spread_has_room(sizes)
            &&& p.spread_has_room(sizes) ==> twice < (room + 2) * POINT
        }),
{
    let n = p.size(sizes)->0.width * p.zoom;
    vstd::arithmetic::div_mod::lemma_fundamental_div_mod(n, POINT as int);
    vstd::arithmetic::div_mod::lemma_mod_bound(n, POINT as int);
}

/// When the list is measured anew, it is put at the row of the page that is read.
pub proof fn the_list_is_put_at_the_page_that_is_read(p: Paging)
    requires
        p.current_page < p.page_count,
    ensures
        ({
            let at = p.rewind();
            let page = p.current_page;
            &&& at.row < at.rows
            &&& p.spread ==> 2 * at.row <= page <= 2 * at.row + 1 && p.page_count <= 2 * at.rows
                <= p.page_count + 1
            &&& !p.spread ==> at.row == page && at.rows == p.page_count
        }),
{
}

/// The pages are shifted aside no further than they stick out, and as little as
/// that asks for: a shift within the limit stays, to either side, and one beyond it ends
/// at the limit on its side.
pub proof fn a_shift_within_the_limit_stays(p: Paging, sizes: Seq<PageSize>)
    requires
        p.wf(),
        sizes_fit(sizes),
        p.pan_limit(sizes) <= i64::MAX,
    ensures
        ({
            let limit = p.pan_limit(sizes);
            let after = p.pan_clamped(sizes);
            &&& limit >= 0
            &&& -limit <= p.pan_x <= limit ==> after == p
            &&& p.pan_x > limit ==> after.pan_x == limit
            &&& p.pan_x < -limit ==> after.pan_x == -limit
            &&& after == (Paging { pan_x: after.pan_x, ..p })
        }),
{
}

} // verus!
