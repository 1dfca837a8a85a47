//! The parts of the screen.

use vstd::prelude::*;

verus! {

/// A rectangle of terminal cells.
#[derive(Debug, Clone, Copy, PartialEq, Eq, Structural)]
pub struct Area {
    pub x: u16,
    pub y: u16,
    pub width: u16,
    pub height: u16,
}

/// How high a part of the screen shall be.
#[derive(Debug, Clone, Copy, PartialEq, Eq, Structural)]
pub enum Size {
    /// As many rows.
    Length(u16),
    /// At least as many rows.
    Min(u16),
    /// As many percent of all rows.
    Percentage(u16),
}

impl Area {
    /// The column after the last one, or the greatest number where that is too large.
    pub open spec fn right(self) -> int {
        if self.x + self.width <= u16::MAX {
            self.x + self.width
        } else {
            u16::MAX as int
        }
    }

    /// The row after the last one, or the greatest number where that is too large.
    pub open spec fn bottom(self) -> int {
        if self.y + self.height <= u16::MAX {
            self.y + self.height
        } else {
            u16::MAX as int
        }
    }

    /// Whether the rows of `self` are rows of `other` and its columns are those of `other`.
    pub open spec fn lies_in(self, other: Area) -> bool {
        &&& self.x == other.x
        &&& self.width == other.width
        &&& other.y <= self.y
        &&& self.y + self.height <= other.bottom()
    }

    /// Whether every row of `self` is above every row of `other`.
    pub open spec fn lies_above(self, other: Area) -> bool {
        self.y + self.height <= other.y
    }
}

// ---------------------------------------------------------------------------
// Splitting

/// The rows that the sizes ask for, added up.
pub open spec fn rows_asked(sizes: Seq<Size>) -> nat
    decreases sizes.len(),
{
    if sizes.len() == 0 {
        0
    } else {
        rows_asked(sizes.drop_last()) + match sizes.last() {
            Size::Length(n) | Size::Min(n) | Size::Percentage(n) => n as nat,
        }
    }
}

/// Whether one part may grow, and every other one has a fixed length.
pub open spec fn one_grows(sizes: Seq<Size>) -> bool {
    exists|k: int|
        0 <= k < sizes.len() && (#[trigger] sizes[k]) is Min && forall|i: int|
            0 <= i < sizes.len() && i != k ==> (#[trigger] sizes[i]) is Length
}

/// Whether the area has the rows that the sizes ask for, and one part can take those that are left.
pub open spec fn fit(area: Area, sizes: Seq<Size>) -> bool {
    one_grows(sizes) && rows_asked(sizes) <= area.height && area.y + area.height <= u16::MAX
}

/// The rows of a part, where `spare` rows more than asked for are left.
pub open spec fn rows_given(size: Size, spare: int) -> int {
    match size {
        Size::Min(n) => n + spare,
        Size::Length(n) | Size::Percentage(n) => n as int,
    }
}

/// The rows of the first `i` parts.
pub open spec fn rows_before(sizes: Seq<Size>, i: int, spare: int) -> int
    decreases i,
{
    if i <= 0 {
        0
    } else {
        rows_before(sizes, i - 1, spare) + rows_given(sizes[i - 1], spare)
    }
}

/// Where an area of `height` rows is cut, if the part above gets `percent` percent of them: a half of
/// a row is rounded up.
pub open spec fn cut(percent: u16, height: u16) -> int {
    (percent * height + 50) / 100
}

/// Whether the sizes are two shares that make up the whole.
pub open spec fn two_shares(sizes: Seq<Size>) -> bool {
    &&& sizes.len() == 2
    &&& sizes[0] is Percentage
    &&& sizes[1] is Percentage
    &&& sizes[0]->Percentage_0 + sizes[1]->Percentage_0 == 100
}

/// Whether two parts fill the area and are cut as the first size says.
pub open spec fn shared(area: Area, sizes: Seq<Size>, parts: Seq<Area>) -> bool {
    let above = cut(sizes[0]->Percentage_0, area.height);
    &&& parts[0].y == area.y
    &&& parts[0].height == above
    &&& parts[1].y == area.y + above
    &&& parts[1].height == area.height - above
}

/// Whether `ratatui::layout::Layout::split` may give these parts for an area and sizes. It is a
/// relation: where the sizes do not fit the area, more than one split is equally good.
pub uninterp spec fn may_split(area: Area, sizes: Seq<Size>, parts: Seq<Area>) -> bool;

/// `ratatui::layout::Layout::split`, for a vertical layout without margin. It gives one part for
/// each size. The parts keep the columns of the area; their rows lie in it, in order and without
/// overlap. Where the sizes fit, each part gets the rows that it asks for and the one that may grow
/// takes those that are left, so that the parts fill the area from top to bottom. Two shares that
/// make up 100 percent fill it too, with the cut at the nearest row. How many rows the parts get in
/// other cases is not stated: a constraint solver decides it, and where the sizes do not fit, that
/// depends on the order in which the solver walks its hash maps.
#[verifier::external_body]
fn split(area: Area, sizes: &[Size]) -> (r: Vec<Area>)
    ensures
        may_split(area, sizes@, r@),
        r@.len() == sizes@.len(),
        forall|i: int| 0 <= i < r@.len() ==> (#[trigger] r@[i]).lies_in(area),
        forall|i: int, j: int| 0 <= i < j < r@.len() ==> (#[trigger] r@[i]).lies_above(#[trigger] r@[j]),
        fit(area, sizes@) ==> forall|i: int|
            0 <= i < r@.len() ==> {
                let spare = area.height - rows_asked(sizes@);
                &&& (#[trigger] r@[i]).y == area.y + rows_before(sizes@, i, spare)
                &&& r@[i].height == rows_given(sizes@[i], spare)
            },
        two_shares(sizes@) && area.y + area.height <= u16::MAX ==> shared(area, sizes@, r@),
{
    ratatui::layout::Layout::default()
        .direction(ratatui::layout::Direction::Vertical)
        .constraints(sizes.iter().map(|size| match *size {
            Size::Length(n) => ratatui::layout::Constraint::Length(n),
            Size::Min(n) => ratatui::layout::Constraint::Min(n),
            Size::Percentage(n) => ratatui::layout::Constraint::Percentage(n),
        }))
        .split(ratatui::layout::Rect { x: area.x, y: area.y, width: area.width, height: area.height })
        .iter()
        .map(|r| Area { x: r.x, y: r.y, width: r.width, height: r.height })
        .collect()
}

/// The area within a border of one cell on every side.
pub open spec fn within_border(area: Area) -> Area {
    let less = |n: u16|
        if n >= 2 {
            (n - 2) as u16
        } else {
            0
        };
    Area {
        x: if area.x + 1 <= area.right() {
            (area.x + 1) as u16
        } else {
            area.right() as u16
        },
        y: if area.y + 1 <= area.bottom() {
            (area.y + 1) as u16
        } else {
            area.bottom() as u16
        },
        width: less(area.width),
        height: less(area.height),
    }
}

/// `ratatui::widgets::Block::inner`, for a block with borders on all sides: the area within its
/// border. No coordinate goes beyond the greatest number, and no length below 0.
#[verifier::external_body]
fn block_inner(area: Area) -> (r: Area)
    ensures
        r == within_border(area),
{
    let r = ratatui::widgets::Block::default()
        .borders(ratatui::widgets::Borders::ALL)
        .inner(ratatui::layout::Rect { x: area.x, y: area.y, width: area.width, height: area.height });
    Area { x: r.x, y: r.y, width: r.width, height: r.height }
}

// ---------------------------------------------------------------------------
// The screen

/// The parts of the detail view: the table of vCPUs and the line on memory below it.
#[derive(Debug, Clone, Copy, PartialEq, Eq, Structural)]
pub struct DetailPanes {
    pub frame: Area,
    pub table: Area,
    pub memory: Area,
}

/// The parts of the screen.
#[derive(Debug, Clone, Copy, PartialEq, Eq, Structural)]
pub struct Panes {
    pub title: Area,
    pub table: Area,
    pub detail: Option<DetailPanes>,
    pub footer: Area,
}

/// Title, guests (with the detail view, where it is open) and footer.
pub open spec fn main_sizes() -> Seq<Size> {
    seq![Size::Length(3), Size::Min(5), Size::Length(3)]
}

/// Guests and detail view.
pub open spec fn middle_sizes() -> Seq<Size> {
    seq![Size::Percentage(55), Size::Percentage(45)]
}

/// The table of vCPUs and the line on memory.
pub open spec fn detail_sizes() -> Seq<Size> {
    seq![Size::Min(3), Size::Length(1)]
}

/// Whether the parts come from splitting the area into title, guests and footer, the part for guests
/// into table and detail view where that is open, and the inside of the detail view into vCPUs and
/// memory.
pub open spec fn are_panes(p: Panes, area: Area, expanded: bool) -> bool {
    exists|outer: Seq<Area>| #[trigger]
        may_split(area, main_sizes(), outer) && p.title == outer[0] && p.footer == outer[2] && (
        match p.detail {
            Some(d) => expanded && may_split(outer[1], middle_sizes(), seq![p.table, d.frame])
                && may_split(within_border(d.frame), detail_sizes(), seq![d.table, d.memory]),
            None => !expanded && p.table == outer[1],
        })
}

/// Whether the parts lie where they belong: in the area, one above the other. In an area of eleven
/// rows or more, title and footer have three rows each and the guests have the rest. Where the detail
/// view is open, 55 percent of that rest go to the table and the others to the detail view; if the
/// inside of its border has four rows or more, the memory has the last one and the vCPUs the others.
pub open spec fn are_laid_out(p: Panes, area: Area, expanded: bool) -> bool {
    &&& p.detail is Some <==> expanded
    &&& p.title.lies_in(area) && p.table.lies_in(area) && p.footer.lies_in(area)
    &&& p.title.lies_above(p.table) && p.title.lies_above(p.footer) && p.table.lies_above(p.footer)
    &&& area.height >= 11 && area.y + area.height <= u16::MAX ==> {
        &&& p.title == Area { height: 3, ..area }
        &&& p.footer == Area { y: (area.y + area.height - 3) as u16, height: 3, ..area }
        &&& !expanded ==> p.table == Area {
            y: (area.y + 3) as u16,
            height: (area.height - 6) as u16,
            ..area
        }
        &&& p.detail matches Some(d) ==> {
            let middle = (area.height - 6) as u16;
            let above = cut(55, middle);
            &&& p.table == Area { y: (area.y + 3) as u16, height: above as u16, ..area }
            &&& d.frame == Area {
                y: (area.y + 3 + above) as u16,
                height: (middle - above) as u16,
                ..area
            }
        }
    }
    &&& p.detail matches Some(d) ==> {
        &&& d.frame.lies_in(area)
        &&& p.table.lies_above(d.frame)
        &&& d.frame.lies_above(p.footer)
        &&& d.table.lies_in(within_border(d.frame))
        &&& d.memory.lies_in(within_border(d.frame))
        &&& d.table.lies_above(d.memory)
        &&& within_border(d.frame).height >= 4 ==> {
            let inside = within_border(d.frame);
            &&& d.table == Area { height: (inside.height - 1) as u16, ..inside }
            &&& d.memory == Area {
                y: (inside.y + inside.height - 1) as u16,
                height: 1,
                ..inside
            }
        }
    }
}

/// The parts of the screen.
pub fn panes(area: Area, expanded: bool) -> (r: Panes)
    ensures
        are_panes(r, area, expanded),
        are_laid_out(r, area, expanded),
{
    let sizes = [Size::Length(3), Size::Min(5), Size::Length(3)];
    assert(sizes@ =~= main_sizes());
    proof {
        lemma_main_sizes(area);
    }
    let outer = split(area, sizes.as_slice());
    if !expanded {
        let r = Panes { title: outer[0], table: outer[1], detail: None, footer: outer[2] };
        assert(may_split(area, main_sizes(), outer@));
        return r;
    }
    let sizes = [Size::Percentage(55), Size::Percentage(45)];
    assert(sizes@ =~= middle_sizes());
    let middle = split(outer[1], sizes.as_slice());
    let sizes = [Size::Min(3), Size::Length(1)];
    assert(sizes@ =~= detail_sizes());
    proof {
        lemma_detail_sizes(within_border(middle@[1]));
    }
    let inner = split(block_inner(middle[1]), sizes.as_slice());
    let d = DetailPanes { frame: middle[1], table: inner[0], memory: inner[1] };
    let r = Panes { title: outer[0], table: middle[0], detail: Some(d), footer: outer[2] };
    proof {
        assert(cut(55, outer@[1].height) <= outer@[1].height);
        assert(middle@ =~= seq![r.table, d.frame]);
        assert(inner@ =~= seq![d.table, d.memory]);
        assert(may_split(area, main_sizes(), outer@));
        assert(outer@[0].lies_above(outer@[1]) && outer@[1].lies_above(outer@[2]));
        assert(middle@[0].lies_above(middle@[1]));
        assert(middle@[0].lies_in(outer@[1]) && middle@[1].lies_in(outer@[1]));
        assert(outer@[1].lies_in(area));
        assert(inner@[0].lies_above(inner@[1]));
        assert(inner@[0].lies_in(within_border(d.frame)));
    }
    r
}

proof fn lemma_main_sizes(area: Area)
    ensures
        rows_asked(main_sizes()) == 11,
        area.height >= 11 && area.y + area.height <= u16::MAX ==> fit(area, main_sizes()),
        ({
            let spare = area.height - 11;
            &&& rows_before(main_sizes(), 0, spare) == 0
            &&& rows_before(main_sizes(), 1, spare) == 3
            &&& rows_before(main_sizes(), 2, spare) == 8 + spare
        }),
{
    reveal_with_fuel(rows_asked, 4);
    reveal_with_fuel(rows_before, 3);
    let sizes = main_sizes();
    assert(sizes.drop_last() =~= seq![Size::Length(3), Size::Min(5)]);
    assert(sizes.drop_last().drop_last() =~= seq![Size::Length(3)]);
    assert(sizes[1] is Min);
}

proof fn lemma_detail_sizes(area: Area)
    ensures
        rows_asked(detail_sizes()) == 4,
        area.height >= 4 && area.y + area.height <= u16::MAX ==> fit(area, detail_sizes()),
        ({
            let spare = area.height - 4;
            &&& rows_before(detail_sizes(), 0, spare) == 0
            &&& rows_before(detail_sizes(), 1, spare) == 3 + spare
        }),
{
    reveal_with_fuel(rows_asked, 3);
    reveal_with_fuel(rows_before, 2);
    let sizes = detail_sizes();
    assert(sizes.drop_last() =~= seq![Size::Min(3)]);
    assert(sizes[0] is Min);
}

// ---------------------------------------------------------------------------
// Laws

/// On a terminal of eleven rows or more the parts fill it without a gap: three rows for the title,
/// three for the footer and the rest for the guests. Where the detail view is open, the table has 55
/// percent of that rest, to half a row, and the detail view the others; the last row inside its border
/// is that of the memory.
pub proof fn law_parts_fill_the_terminal(p: Panes, area: Area, expanded: bool)
    requires
        are_laid_out(p, area, expanded),
        area.height >= 11,
        area.y + area.height <= u16::MAX,
    ensures
        p.title.y == area.y && p.title.height == 3,
        p.table.y == area.y + 3,
        p.footer.y == area.y + area.height - 3 && p.footer.height == 3,
        p.title.x == area.x && p.table.x == area.x && p.footer.x == area.x,
        p.title.width == area.width && p.table.width == area.width && p.footer.width == area.width,
        expanded <==> p.detail is Some,
        !expanded ==> p.table.height == area.height - 6,
        p.detail matches Some(d) ==> {
            &&& p.table.height + d.frame.height == area.height - 6
            &&& d.frame.y == p.table.y + p.table.height
            &&& d.frame.x == area.x && d.frame.width == area.width
            &&& -50 <= 100 * p.table.height - 55 * (area.height - 6) <= 50
            &&& d.frame.height >= 6 && d.frame.width >= 2 && d.frame.x + d.frame.width <= u16::MAX ==> {
                &&& d.table.y == d.frame.y + 1
                &&& d.table.height == d.frame.height - 3
                &&& d.memory.y == d.frame.y + d.frame.height - 2
                &&& d.memory.height == 1
                &&& d.table.x == d.frame.x + 1 && d.table.width == d.frame.width - 2
                &&& d.memory.x == d.frame.x + 1 && d.memory.width == d.frame.width - 2
            }
        },
{
    if let Some(d) = p.detail {
        let middle = (area.height - 6) as u16;
        assert(cut(55, middle) <= middle);
    }
}

} // verus!
