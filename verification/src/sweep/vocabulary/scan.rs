//! Paging through the store: a bounded walk that asks for one page after
//! another until a short page says there is no more.

use vstd::prelude::*;

verus! {

/// Pages one scan may read.
pub const PAGES_MAX: u32 = 100_000;

/// Content fragments read per store page.
pub const TEXT_PAGE_ROWS: usize = 2_000;

/// A walk over pages keyed by the id they start after.
#[derive(Debug, Clone, Copy, PartialEq, Eq, Structural)]
pub struct Scan {
    /// The id the next page starts after.
    pub after: i64,
    /// Pages the walk may still read.
    pub pages_left: u32,
}

impl Scan {
    /// A walk from the start.
    pub fn new() -> (r: Self)
        ensures
            r == (Scan { after: 0, pages_left: PAGES_MAX }),
    {
        Scan { after: 0, pages_left: PAGES_MAX }
    }

    /// Whether the walk has a page to read.
    pub fn wants_page(&self) -> (r: bool)
        ensures
            r == (self.pages_left > 0),
    {
        self.pages_left > 0
    }

    /// The walk once a page was read: on to what follows its last row when
    /// the page was full, at its end otherwise.
    pub open spec fn turned(self, rows: nat, page_rows: nat, last: Option<i64>) -> Scan {
        match last {
            Some(id) if rows >= page_rows => Scan {
                after: id,
                pages_left: (self.pages_left - 1) as u32,
            },
            _ => Scan { after: self.after, pages_left: 0 },
        }
    }

    /// Note that a page of `rows` rows was read where a full one has
    /// `page_rows`; `last` is the id of its last row.
    pub fn turn(&mut self, rows: usize, page_rows: usize, last: Option<i64>)
        requires
            old(self).pages_left > 0,
        ensures
            *final(self) == old(self).turned(rows as nat, page_rows as nat, last),
            final(self).pages_left < old(self).pages_left,
    {
        match last {
            Some(id) => {
                if rows >= page_rows {
                    self.after = id;
                    self.pages_left = self.pages_left - 1;
                } else {
                    self.pages_left = 0;
                }
            },
            None => {
                self.pages_left = 0;
            },
        }
    }
}

/// A walk over pages keyed by how many rows stand before them.
#[derive(Debug, Clone, Copy, PartialEq, Eq, Structural)]
pub struct OffsetScan {
    /// The rows before the next page.
    pub offset: u32,
    /// Pages the walk may still read.
    pub pages_left: u32,
}

impl OffsetScan {
    /// A walk from the start.
    pub fn new() -> (r: Self)
        ensures
            r == (OffsetScan { offset: 0, pages_left: PAGES_MAX }),
    {
        OffsetScan { offset: 0, pages_left: PAGES_MAX }
    }

    /// Whether the walk has a page to read.
    pub fn wants_page(&self) -> (r: bool)
        ensures
            r == (self.pages_left > 0),
    {
        self.pages_left > 0
    }

    /// The walk once a page was read: a page further on when the page was
    /// full, as far as an offset goes; at its end otherwise.
    pub open spec fn turned(self, rows: nat, page_rows: nat) -> OffsetScan {
        if rows < page_rows {
            OffsetScan { offset: self.offset, pages_left: 0 }
        } else {
            OffsetScan {
                offset: if self.offset + page_rows > u32::MAX {
                    u32::MAX
                } else {
                    (self.offset + page_rows) as u32
                },
                pages_left: (self.pages_left - 1) as u32,
            }
        }
    }

    /// Note that a page of `rows` rows was read where a full one has
    /// `page_rows`.
    pub fn turn(&mut self, rows: usize, page_rows: usize)
        requires
            old(self).pages_left > 0,
        ensures
            *final(self) == old(self).turned(rows as nat, page_rows as nat),
            final(self).pages_left < old(self).pages_left,
    {
        if rows < page_rows {
            self.pages_left = 0;
        } else {
            let step: u32 = if page_rows > u32::MAX as usize {
                u32::MAX
            } else {
                page_rows as u32
            };
            self.offset = self.offset.saturating_add(step);
            self.pages_left = self.pages_left - 1;
        }
    }
}

/// An offset walk once it has read `k` full pages.
pub open spec fn after_full_pages(scan: OffsetScan, page_rows: nat, k: nat) -> OffsetScan
    decreases k,
{
    if k == 0 {
        scan
    } else {
        after_full_pages(scan, page_rows, (k - 1) as nat).turned(page_rows, page_rows)
    }
}

/// An offset walk misses no row: after `k` full pages it stands before row
/// `k * page_rows`, with `k` pages fewer to read.
pub proof fn law_offset_pages_adjoin(page_rows: nat, k: nat)
    requires
        k <= PAGES_MAX,
        k * page_rows <= u32::MAX,
    ensures
        after_full_pages(OffsetScan { offset: 0, pages_left: PAGES_MAX }, page_rows, k) == (
        OffsetScan { offset: (k * page_rows) as u32, pages_left: (PAGES_MAX - k) as u32 }),
    decreases k,
{
    if k > 0 {
        assert((k - 1) * page_rows + page_rows == k * page_rows) by (nonlinear_arith)
            requires
                k > 0,
        ;
        assert((k - 1) * page_rows >= 0) by (nonlinear_arith)
            requires
                k > 0,
        ;
        law_offset_pages_adjoin(page_rows, (k - 1) as nat);
    } else {
        assert(k * page_rows == 0) by (nonlinear_arith)
            requires
                k == 0,
        ;
    }
}


/// A keyed walk goes on after the last row it read, as long as pages are
/// full and it may read more; a page that is not full is its last.
pub proof fn law_a_keyed_walk_goes_on_after_its_last_row(
    scan: Scan,
    rows: nat,
    page_rows: nat,
    last: i64,
)
    requires
        scan.pages_left > 0,
    ensures
        rows >= page_rows ==> scan.turned(rows, page_rows, Some(last)).after == last && scan.turned(
            rows,
            page_rows,
            Some(last),
        ).pages_left == scan.pages_left - 1,
        rows < page_rows ==> scan.turned(rows, page_rows, Some(last)).pages_left == 0,
        scan.turned(rows, page_rows, None).pages_left == 0,
{
}
} // verus!
