//! Flags, and how one is laid out on a canvas.

use vstd::prelude::*;
use crate::bitmap::{blank, in_rect, painted, Bitmap, Color};
use crate::ratio::{at_most, lemma_quotient_bound, rounded_quotient, Fraction, Ratio};
use crate::render::Renderer;
use crate::util::{lemma_size_value_is_fraction, size_value, PartialSize};

verus! {

/// A flag: sections side by side, from left to right.
#[derive(Debug)]
pub struct Flag {
    /// The width of the flag divided by its height.
    pub aspect: PartialSize,
    /// The sections, from left to right.
    pub sections: Vec<FlagSection>,
}

/// A vertical strip of a flag, made of subsections from top to bottom.
#[derive(Debug)]
pub struct FlagSection {
    /// The width of the section as a part of the flag's width.
    pub width: PartialSize,
    /// The subsections, from top to bottom.
    pub subsections: Vec<FlagSubSection>,
}

/// A rectangle of one color within a section.
#[derive(Debug)]
pub struct FlagSubSection {
    /// The width of the subsection as a part of its section's width.
    pub width: PartialSize,
    /// The height of the subsection as a part of the flag's height.
    pub height: PartialSize,
    /// The color, as red, green and blue.
    pub color: [u8; 3],
}

/// The size of a flag that cannot be resolved: the first one in the order in
/// which a flag is laid out.
#[derive(Debug, Copy, Clone, PartialEq, Eq, Structural)]
pub enum FlagError {
    /// The aspect ratio of the flag.
    Aspect,
    /// The width of the section with the given index.
    SectionWidth { section: usize },
    /// The height of a subsection, given by the indices of its section and of itself.
    SubsectionHeight { section: usize, subsection: usize },
    /// The width of a subsection, given by the indices of its section and of itself.
    SubsectionWidth { section: usize, subsection: usize },
}

/// A subsection with its sizes resolved.
pub struct SubsectionModel {
    pub width: Fraction,
    pub height: Fraction,
    pub color: Color,
}

/// A section with its sizes resolved.
pub struct SectionModel {
    pub width: Fraction,
    pub subsections: Seq<SubsectionModel>,
}

/// A flag with its sizes resolved.
pub struct FlagModel {
    pub aspect: Fraction,
    pub sections: Seq<SectionModel>,
}

/// A rectangle of pixels: its top left corner, its width and its height.
pub struct Region {
    pub x: nat,
    pub y: nat,
    pub width: nat,
    pub height: nat,
}

impl FlagSubSection {
    /// Whether both sizes of the subsection have a value.
    pub open spec fn valid(&self) -> bool {
        size_value(self.height.0@) is Some && size_value(self.width.0@) is Some
    }

    /// The subsection with its sizes resolved.
    pub open spec fn model(&self) -> SubsectionModel {
        SubsectionModel {
            width: size_value(self.width.0@).unwrap(),
            height: size_value(self.height.0@).unwrap(),
            color: Color { red: self.color[0], green: self.color[1], blue: self.color[2] },
        }
    }
}

impl FlagSection {
    /// Whether every size of the section has a value.
    pub open spec fn valid(&self) -> bool {
        &&& size_value(self.width.0@) is Some
        &&& forall|j: int| 0 <= j < self.subsections@.len() ==> (#[trigger] self.subsections@[j]).valid()
    }

    /// The section with its sizes resolved.
    pub open spec fn model(&self) -> SectionModel {
        SectionModel {
            width: size_value(self.width.0@).unwrap(),
            subsections: Seq::new(self.subsections@.len(), |j: int| self.subsections@[j].model()),
        }
    }
}

impl Flag {
    /// Whether every size of the flag has a value.
    pub open spec fn valid(&self) -> bool {
        &&& size_value(self.aspect.0@) is Some
        &&& forall|i: int| 0 <= i < self.sections@.len() ==> (#[trigger] self.sections@[i]).valid()
    }

    /// The flag with its sizes resolved.
    pub open spec fn model(&self) -> FlagModel {
        FlagModel {
            aspect: size_value(self.aspect.0@).unwrap(),
            sections: Seq::new(self.sections@.len(), |i: int| self.sections@[i].model()),
        }
    }

    /// Whether `error` names the first size of the flag that has no value.
    /// The order is: the aspect ratio, then section by section its width and,
    /// subsection by subsection, the height and then the width.
    pub open spec fn first_error(&self, error: FlagError) -> bool {
        match error {
            FlagError::Aspect => size_value(self.aspect.0@) is None,
            FlagError::SectionWidth { section } => {
                &&& size_value(self.aspect.0@) is Some
                &&& section < self.sections@.len()
                &&& forall|i: int| 0 <= i < section ==> (#[trigger] self.sections@[i]).valid()
                &&& size_value(self.sections@[section as int].width.0@) is None
            },
            FlagError::SubsectionHeight { section, subsection } => {
                &&& size_value(self.aspect.0@) is Some
                &&& section < self.sections@.len()
                &&& forall|i: int| 0 <= i < section ==> (#[trigger] self.sections@[i]).valid()
                &&& size_value(self.sections@[section as int].width.0@) is Some
                &&& subsection < self.sections@[section as int].subsections@.len()
                &&& forall|j: int|
                    0 <= j < subsection ==> (#[trigger] self.sections@[section as int].subsections@[j]).valid()
                &&& size_value(self.sections@[section as int].subsections@[subsection as int].height.0@) is None
            },
            FlagError::SubsectionWidth { section, subsection } => {
                &&& size_value(self.aspect.0@) is Some
                &&& section < self.sections@.len()
                &&& forall|i: int| 0 <= i < section ==> (#[trigger] self.sections@[i]).valid()
                &&& size_value(self.sections@[section as int].width.0@) is Some
                &&& subsection < self.sections@[section as int].subsections@.len()
                &&& forall|j: int|
                    0 <= j < subsection ==> (#[trigger] self.sections@[section as int].subsections@[j]).valid()
                &&& size_value(self.sections@[section as int].subsections@[subsection as int].height.0@) is Some
                &&& size_value(self.sections@[section as int].subsections@[subsection as int].width.0@) is None
            },
        }
    }
}

/// A flag has at most one first error, and has one only if it is not valid.
pub proof fn lemma_first_error_is_unique(flag: &Flag, first: FlagError, second: FlagError)
    requires
        flag.first_error(first),
        flag.first_error(second),
    ensures
        first == second,
        !flag.valid(),
{
    let (i, j) = error_place(first);
    let (k, l) = error_place(second);
    if i >= 0 {
        assert(!flag.sections@[i].valid()) by {
            if j >= 0 {
                assert(!flag.sections@[i].subsections@[j].valid());
            }
        }
    }
    if i >= 0 && k >= 0 {
        if i < k {
            assert(flag.sections@[i].valid());
        } else if k < i {
            assert(flag.sections@[k].valid());
            if l >= 0 {
                assert(!flag.sections@[k].subsections@[l].valid());
            }
        } else if j >= 0 && l >= 0 {
            if j < l {
                assert(flag.sections@[i].subsections@[j].valid());
            } else if l < j {
                assert(flag.sections@[i].subsections@[l].valid());
            }
        }
    }
}

/// The indices of the section and the subsection that an error names, each
/// of them -1 where it names none.
spec fn error_place(error: FlagError) -> (int, int) {
    match error {
        FlagError::Aspect => (-1, -1),
        FlagError::SectionWidth { section } => (section as int, -1),
        FlagError::SubsectionHeight { section, subsection } => (section as int, subsection as int),
        FlagError::SubsectionWidth { section, subsection } => (section as int, subsection as int),
    }
}

/// Where a flag with the given aspect ratio stands on a canvas: as large as
/// the canvas allows, and centered along the side that it does not fill.
/// On a canvas that is wider than the flag, the flag is as high as the canvas
/// and its width is rounded; on one that is higher, it is as wide as the
/// canvas and its height is rounded; on one of its own aspect ratio it fills
/// the canvas. Half of the margin that is left is rounded up.
pub open spec fn fitted(aspect: Fraction, width: nat, height: nat) -> Region {
    if aspect.less(Fraction { num: width, den: height }) {
        let flag_width = aspect.rounded_of(height);
        Region { x: rounded_quotient((width - flag_width) as nat, 2), y: 0, width: flag_width, height }
    } else if (Fraction { num: width, den: height }).less(aspect) {
        let flag_height = aspect.rounded_into(width);
        Region { x: 0, y: rounded_quotient((height - flag_height) as nat, 2), width, height: flag_height }
    } else {
        Region { x: 0, y: 0, width, height }
    }
}

/// A flag that is fitted to a canvas lies within the canvas.
pub proof fn lemma_fitted_within_canvas(aspect: Fraction, width: nat, height: nat)
    requires
        aspect.den > 0,
    ensures
        fitted(aspect, width, height).x + fitted(aspect, width, height).width <= width,
        fitted(aspect, width, height).y + fitted(aspect, width, height).height <= height,
{
    if aspect.less(Fraction { num: width, den: height }) {
        lemma_rounded_below(aspect.num * height, aspect.den, width);
        lemma_centered((width - aspect.rounded_of(height)) as nat);
    } else if (Fraction { num: width, den: height }).less(aspect) {
        assert(aspect.num > 0) by (nonlinear_arith)
            requires
                width * aspect.den < aspect.num * height,
        ;
        assert(width * aspect.den < height * aspect.num) by (nonlinear_arith)
            requires
                width * aspect.den < aspect.num * height,
        ;
        lemma_rounded_below(width * aspect.den, aspect.num, height);
        lemma_centered((height - aspect.rounded_into(width)) as nat);
    }
}

/// Half of a margin, rounded, is the margin plus one halved, and so at most the margin.
proof fn lemma_centered(margin: nat)
    ensures
        rounded_quotient(margin, 2) == (margin + 1) / 2,
        rounded_quotient(margin, 2) <= margin,
{
    assert(2 * 2nat == 4);
    assert((2 * margin + 2) / 4 == (margin + 1) / 2);
}

/// A quotient below a whole number is rounded to at most that number.
proof fn lemma_rounded_below(num: nat, den: nat, bound: nat)
    requires
        den > 0,
        num < bound * den,
    ensures
        rounded_quotient(num, den) <= bound,
{
    lemma_quotient_bound((2 * num + den) as int, (2 * den) as int, (bound + 1) as int);
    assert((bound + 1) * (2 * den) > 2 * num + den) by (nonlinear_arith)
        requires
            num < bound * den,
            den > 0,
    ;
}

/// Where a flag stands on a canvas, in pixels.
#[derive(Debug, Copy, Clone, PartialEq, Eq, Structural)]
pub struct Viewport {
    /// The column of the flag's left edge.
    pub x: usize,
    /// The row of the flag's top edge.
    pub y: usize,
    /// The width of the flag.
    pub width: usize,
    /// The height of the flag.
    pub height: usize,
}

impl View for Viewport {
    type V = Region;

    /// The same place in natural numbers.
    open spec fn view(&self) -> Region {
        Region { x: self.x as nat, y: self.y as nat, width: self.width as nat, height: self.height as nat }
    }
}

/// Fits a flag with the given aspect ratio to a canvas.
pub fn viewport(aspect: &Ratio, width: usize, height: usize) -> (place: Viewport)
    ensures
        place@ == fitted(aspect@, width as nat, height as nat),
        place.x + place.width <= width,
        place.y + place.height <= height,
{
    if aspect.less_than_quotient(width, height) {
        let flag_width = aspect.rounded_of(height, width);
        proof {
            lemma_rounded_below(aspect@.num * height as nat, aspect@.den, width as nat);
            lemma_centered((width - flag_width) as nat);
        }
        let margin = width - flag_width;
        Viewport { x: margin / 2 + margin % 2, y: 0, width: flag_width, height }
    } else if aspect.more_than_quotient(width, height) {
        proof {
            assert(aspect@.num > 0) by (nonlinear_arith)
                requires
                    width * aspect@.den < aspect@.num * height,
            ;
            assert(width * aspect@.den < height * aspect@.num) by (nonlinear_arith)
                requires
                    width * aspect@.den < aspect@.num * height,
            ;
            lemma_rounded_below(width as nat * aspect@.den, aspect@.num, height as nat);
        }
        let flag_height = aspect.rounded_into(width, height);
        proof {
            lemma_centered((height - flag_height) as nat);
        }
        let margin = height - flag_height;
        Viewport { x: 0, y: margin / 2 + margin % 2, width, height: flag_height }
    } else {
        Viewport { x: 0, y: 0, width, height }
    }
}

/// Where the part with the given index starts, when parts of the given
/// nominal sizes are put one after another into a span of `total` and each
/// is cut off where the span ends.
pub open spec fn offset(nominal: Seq<nat>, total: nat, index: nat) -> nat
    decreases index,
{
    if index == 0 {
        0
    } else {
        let start = offset(nominal, total, (index - 1) as nat);
        start + at_most(nominal[index - 1], (total - start) as nat)
    }
}

/// The size that is left of the part with the given index once it is cut off
/// where the span ends.
pub open spec fn extent(nominal: Seq<nat>, total: nat, index: nat) -> nat {
    at_most(nominal[index as int], (total - offset(nominal, total, index)) as nat)
}

/// No part starts past the end of the span.
pub proof fn lemma_offset_within(nominal: Seq<nat>, total: nat, index: nat)
    ensures
        offset(nominal, total, index) <= total,
    decreases index,
{
    if index > 0 {
        lemma_offset_within(nominal, total, (index - 1) as nat);
    }
}

/// The nominal widths of the sections of a flag that is `flag_width` wide:
/// each section's part of the flag's width, rounded.
pub open spec fn section_widths(sections: Seq<SectionModel>, flag_width: nat) -> Seq<nat> {
    Seq::new(sections.len(), |i: int| sections[i].width.rounded_of(flag_width))
}

/// The nominal heights of the subsections of a section of a flag that is
/// `flag_height` high: each subsection's part of the flag's height, rounded.
pub open spec fn subsection_heights(section: SectionModel, flag_height: nat) -> Seq<nat> {
    Seq::new(section.subsections.len(), |j: int| section.subsections[j].height.rounded_of(flag_height))
}

/// The rectangle of the canvas that a subsection fills, given where the flag
/// stands. Its width is the subsection's part of the nominal width of its
/// section, cut off at the right edge of the flag.
pub open spec fn subsection_region(flag: FlagModel, place: Region, section: nat, subsection: nat) -> Region {
    let left = offset(section_widths(flag.sections, place.width), place.width, section);
    let heights = subsection_heights(flag.sections[section as int], place.height);
    let part = flag.sections[section as int].subsections[subsection as int];
    Region {
        x: place.x + left,
        y: place.y + offset(heights, place.height, subsection),
        width: at_most(
            part.width.times(flag.sections[section as int].width).rounded_of(place.width),
            (place.width - left) as nat,
        ),
        height: extent(heights, place.height, subsection),
    }
}

/// The grid after the first `count` subsections of a section are painted onto it.
pub open spec fn with_subsections(
    grid: Seq<Seq<Color>>,
    flag: FlagModel,
    place: Region,
    section: nat,
    count: nat,
) -> Seq<Seq<Color>>
    decreases count,
{
    if count == 0 {
        grid
    } else {
        let region = subsection_region(flag, place, section, (count - 1) as nat);
        painted(
            with_subsections(grid, flag, place, section, (count - 1) as nat),
            region.x as int,
            region.y as int,
            region.width as int,
            region.height as int,
            flag.sections[section as int].subsections[count - 1].color,
        )
    }
}

/// The grid after the first `count` sections of a flag are painted onto it.
pub open spec fn with_sections(grid: Seq<Seq<Color>>, flag: FlagModel, place: Region, count: nat) -> Seq<
    Seq<Color>,
>
    decreases count,
{
    if count == 0 {
        grid
    } else {
        with_subsections(
            with_sections(grid, flag, place, (count - 1) as nat),
            flag,
            place,
            (count - 1) as nat,
            flag.sections[count - 1].subsections.len(),
        )
    }
}

/// The picture of a flag on a canvas of the given size: black, with the
/// subsections painted in order onto the place that the flag is fitted to.
pub open spec fn picture(flag: FlagModel, width: nat, height: nat) -> Seq<Seq<Color>> {
    with_sections(blank(width, height), flag, fitted(flag.aspect, width, height), flag.sections.len())
}

/// Lays a flag out on a canvas of the given size. A flag with a size that
/// has no value is not laid out; the first such size is reported.
pub fn layout(flag: &Flag, width: usize, height: usize) -> (outcome: Result<Bitmap, FlagError>)
    ensures
        outcome is Ok <==> flag.valid(),
        outcome matches Ok(bitmap) ==> {
            &&& bitmap.spec_width() == width
            &&& bitmap.spec_height() == height
            &&& bitmap.shaped()
            &&& bitmap@ == picture(flag.model(), width as nat, height as nat)
        },
        outcome matches Err(error) ==> flag.first_error(error),
{
    let aspect = match flag.aspect.as_number() {
        Some(aspect) => aspect,
        None => {
            return Err(FlagError::Aspect);
        },
    };
    let place = viewport(&aspect, width, height);
    let mut bitmap = Bitmap::new(width, height);
    let ghost model = flag.model();
    let ghost widths = section_widths(model.sections, place.width as nat);
    let mut section_x: usize = 0;
    let mut i: usize = 0;
    while i < flag.sections.len()
        invariant
            i <= flag.sections@.len(),
            model == flag.model(),
            size_value(flag.aspect.0@) is Some,
            place@ == fitted(model.aspect, width as nat, height as nat),
            place.x + place.width <= width,
            place.y + place.height <= height,
            widths == section_widths(model.sections, place.width as nat),
            forall|k: int| 0 <= k < i ==> (#[trigger] flag.sections@[k]).valid(),
            section_x == offset(widths, place.width as nat, i as nat),
            section_x <= place.width,
            bitmap.spec_width() == width,
            bitmap.spec_height() == height,
            bitmap.shaped(),
            bitmap@ == with_sections(blank(width as nat, height as nat), model, place@, i as nat),
        decreases flag.sections@.len() - i,
    {
        let section = &flag.sections[i];
        let share = match section.width.as_number() {
            Some(share) => share,
            None => {
                return Err(FlagError::SectionWidth { section: i });
            },
        };
        let section_width = share.rounded_of(place.width, place.width - section_x);
        let ghost heights = subsection_heights(model.sections[i as int], place.height as nat);
        let ghost before = bitmap@;
        let mut section_y: usize = 0;
        let mut j: usize = 0;
        while j < section.subsections.len()
            invariant
                i < flag.sections@.len(),
                j <= section.subsections@.len(),
                section == flag.sections@[i as int],
                model == flag.model(),
                size_value(flag.aspect.0@) is Some,
                place.x + place.width <= width,
                place.y + place.height <= height,
                widths == section_widths(model.sections, place.width as nat),
                heights == subsection_heights(model.sections[i as int], place.height as nat),
                forall|k: int| 0 <= k < i ==> (#[trigger] flag.sections@[k]).valid(),
                forall|k: int| 0 <= k < j ==> (#[trigger] section.subsections@[k]).valid(),
                size_value(section.width.0@) == Some(share@),
                section_x == offset(widths, place.width as nat, i as nat),
                section_x <= place.width,
                section_y == offset(heights, place.height as nat, j as nat),
                section_y <= place.height,
                bitmap.spec_width() == width,
                bitmap.spec_height() == height,
                bitmap.shaped(),
                bitmap@ == with_subsections(before, model, place@, i as nat, j as nat),
            decreases section.subsections@.len() - j,
        {
            let part = &section.subsections[j];
            let height_share = match part.height.as_number() {
                Some(share) => share,
                None => {
                    return Err(FlagError::SubsectionHeight { section: i, subsection: j });
                },
            };
            let part_height = height_share.rounded_of(place.height, place.height - section_y);
            let width_share = match part.width.as_number() {
                Some(share) => share,
                None => {
                    return Err(FlagError::SubsectionWidth { section: i, subsection: j });
                },
            };
            let part_width = width_share.times(&share).rounded_of(place.width, place.width - section_x);
            let color = Color::from(part.color);
            proof {
                lemma_offset_within(heights, place.height as nat, (j + 1) as nat);
                let region = subsection_region(model, place@, i as nat, j as nat);
                assert(region.x == place.x + section_x);
                assert(region.y == place.y + section_y);
                assert(region.width == part_width);
                assert(region.height == part_height);
                assert(model.sections[i as int].subsections[j as int].color == color);
            }
            bitmap.draw_rect(place.x + section_x, place.y + section_y, part_width, part_height, color);
            section_y += part_height;
            j += 1;
        }
        proof {
            lemma_offset_within(widths, place.width as nat, (i + 1) as nat);
            assert(model.sections[i as int].subsections.len() == section.subsections@.len());
        }
        section_x += section_width;
        i += 1;
    }
    Ok(bitmap)
}

/// Lays a flag out on the canvas of a renderer and hands the picture to the
/// renderer. A flag with a size that has no value is not shown; the first
/// such size is reported and the renderer is left as it was.
pub fn render_flag<R: Renderer>(renderer: &mut R, flag: &Flag) -> (outcome: Result<(), FlagError>)
    ensures
        outcome is Ok <==> flag.valid(),
        outcome matches Err(error) ==> flag.first_error(error) && *final(renderer) == *old(renderer),
{
    let (width, height) = renderer.get_size();
    match layout(flag, width, height) {
        Ok(bitmap) => {
            renderer.render(&bitmap);
            Ok(())
        },
        Err(error) => Err(error),
    }
}

impl Flag {
    /// Whether two flags are described alike: by the same texts for their
    /// sizes and the same colors, in the same order.
    pub open spec fn same_description(&self, other: &Flag) -> bool {
        &&& self.aspect.0@ == other.aspect.0@
        &&& self.sections@.len() == other.sections@.len()
        &&& forall|i: int|
            0 <= i < self.sections@.len() ==> {
                &&& (#[trigger] self.sections@[i]).width.0@ == other.sections@[i].width.0@
                &&& self.sections@[i].subsections@.len() == other.sections@[i].subsections@.len()
                &&& forall|j: int|
                    0 <= j < self.sections@[i].subsections@.len() ==> {
                        &&& (#[trigger] self.sections@[i].subsections@[j]).width.0@
                            == other.sections@[i].subsections@[j].width.0@
                        &&& self.sections@[i].subsections@[j].height.0@
                            == other.sections@[i].subsections@[j].height.0@
                        &&& self.sections@[i].subsections@[j].color@ == other.sections@[i].subsections@[j].color@
                    }
            }
    }
}

/// Laying out twice gives the same picture: the picture of a flag on a canvas
/// depends on nothing but the description of the flag and the size of the canvas.
pub proof fn lemma_layout_is_repeatable(first: &Flag, second: &Flag, width: nat, height: nat)
    requires
        first.same_description(second),
    ensures
        first.valid() == second.valid(),
        forall|error: FlagError| first.first_error(error) == second.first_error(error),
        picture(first.model(), width, height) == picture(second.model(), width, height),
{
    assert forall|i: int| 0 <= i < first.sections@.len() implies (#[trigger] first.sections@[i]).model()
        == second.sections@[i].model() && first.sections@[i].valid() == second.sections@[i].valid() by {
        let a = first.sections@[i];
        let b = second.sections@[i];
        assert forall|j: int| 0 <= j < a.subsections@.len() implies (#[trigger] a.subsections@[j]).model()
            == b.subsections@[j].model() && a.subsections@[j].valid() == b.subsections@[j].valid() by {
            let c = a.subsections@[j].color;
            let d = b.subsections@[j].color;
            assert(c@[0] == d@[0] && c@[1] == d@[1] && c@[2] == d@[2]);
        }
        assert(a.model().subsections =~= b.model().subsections);
        if a.valid() {
            assert forall|j: int| 0 <= j < b.subsections@.len() implies (#[trigger] b.subsections@[j]).valid() by {
                assert(a.subsections@[j].valid());
            }
        }
        if b.valid() {
            assert forall|j: int| 0 <= j < a.subsections@.len() implies (#[trigger] a.subsections@[j]).valid() by {
                assert(b.subsections@[j].valid());
            }
        }
    }
    assert(first.model().sections =~= second.model().sections);
    if first.valid() {
        assert forall|i: int| 0 <= i < second.sections@.len() implies (#[trigger] second.sections@[i]).valid() by {
            assert(first.sections@[i].valid());
        }
    }
    if second.valid() {
        assert forall|i: int| 0 <= i < first.sections@.len() implies (#[trigger] first.sections@[i]).valid() by {
            assert(second.sections@[i].valid());
        }
    }
    assert forall|error: FlagError| first.first_error(error) == second.first_error(error) by {
        lemma_same_first_error(first, second, error);
        lemma_same_first_error(second, first, error);
    }
}

/// Of two flags that are described alike, the second has each first error of the first.
proof fn lemma_same_first_error(first: &Flag, second: &Flag, error: FlagError)
    requires
        first.same_description(second) || second.same_description(first),
        forall|i: int|
            0 <= i < first.sections@.len() ==> (#[trigger] first.sections@[i]).valid()
                == second.sections@[i].valid(),
        forall|i: int, j: int|
            0 <= i < first.sections@.len() && 0 <= j < first.sections@[i].subsections@.len() ==> (
            #[trigger] first.sections@[i].subsections@[j]).valid() == second.sections@[i].subsections@[j].valid(),
    ensures
        first.first_error(error) ==> second.first_error(error),
{
    if first.first_error(error) {
        match error {
            FlagError::Aspect => {},
            FlagError::SectionWidth { section } => {
                assert(first.sections@[section as int].width.0@ == second.sections@[section as int].width.0@);
                assert forall|i: int| 0 <= i < section implies (#[trigger] second.sections@[i]).valid() by {
                    assert(first.sections@[i].valid());
                }
            },
            FlagError::SubsectionHeight { section, subsection } => {
                let a = first.sections@[section as int];
                let b = second.sections@[section as int];
                assert(a.width.0@ == b.width.0@);
                assert(a.subsections@[subsection as int].height.0@ == b.subsections@[subsection as int].height.0@);
                assert forall|i: int| 0 <= i < section implies (#[trigger] second.sections@[i]).valid() by {
                    assert(first.sections@[i].valid());
                }
                assert forall|j: int| 0 <= j < subsection implies (#[trigger] b.subsections@[j]).valid() by {
                    assert(a.subsections@[j].valid());
                }
            },
            FlagError::SubsectionWidth { section, subsection } => {
                let a = first.sections@[section as int];
                let b = second.sections@[section as int];
                assert(a.width.0@ == b.width.0@);
                assert(a.subsections@[subsection as int].height.0@ == b.subsections@[subsection as int].height.0@);
                assert(a.subsections@[subsection as int].width.0@ == b.subsections@[subsection as int].width.0@);
                assert forall|i: int| 0 <= i < section implies (#[trigger] second.sections@[i]).valid() by {
                    assert(first.sections@[i].valid());
                }
                assert forall|j: int| 0 <= j < subsection implies (#[trigger] b.subsections@[j]).valid() by {
                    assert(a.subsections@[j].valid());
                }
            },
        }
    }
}

/// No subsection reaches past the flag: whatever the sizes add up to, the
/// rectangle of every subsection lies within the place of the flag.
pub proof fn lemma_subsection_within_flag(flag: FlagModel, place: Region, section: nat, subsection: nat)
    ensures
        place.x <= subsection_region(flag, place, section, subsection).x,
        subsection_region(flag, place, section, subsection).x + subsection_region(
            flag,
            place,
            section,
            subsection,
        ).width <= place.x + place.width,
        place.y <= subsection_region(flag, place, section, subsection).y,
        subsection_region(flag, place, section, subsection).y + subsection_region(
            flag,
            place,
            section,
            subsection,
        ).height <= place.y + place.height,
{
    lemma_offset_within(section_widths(flag.sections, place.width), place.width, section);
    lemma_offset_within(
        subsection_heights(flag.sections[section as int], place.height),
        place.height,
        subsection,
    );
}

/// The sum of the first `count` nominal sizes.
pub open spec fn nominal_sum(nominal: Seq<nat>, count: nat) -> nat
    decreases count,
{
    if count == 0 {
        0
    } else {
        nominal_sum(nominal, (count - 1) as nat) + nominal[count - 1]
    }
}

/// The sum of the widths of the first `count` sections.
pub open spec fn width_sum(sections: Seq<SectionModel>, count: nat) -> Fraction
    decreases count,
{
    if count == 0 {
        Fraction::whole(0)
    } else {
        width_sum(sections, (count - 1) as nat).plus(sections[count - 1].width)
    }
}

/// Parts that are cut off at the end of a span take up the sum of their
/// nominal sizes, or the whole span where the sum is larger.
pub proof fn lemma_offset_is_limited_sum(nominal: Seq<nat>, total: nat, index: nat)
    ensures
        offset(nominal, total, index) == at_most(nominal_sum(nominal, index), total),
    decreases index,
{
    if index > 0 {
        lemma_offset_is_limited_sum(nominal, total, (index - 1) as nat);
    }
}

/// Each part starts where the part before it ends.
pub proof fn lemma_parts_adjoin(nominal: Seq<nat>, total: nat, index: nat)
    ensures
        offset(nominal, total, index + 1) == offset(nominal, total, index) + extent(nominal, total, index),
{
}

/// A rounded quotient is within a half of the quotient.
proof fn lemma_rounded_is_near(num: nat, den: nat)
    requires
        den > 0,
    ensures
        2 * den * rounded_quotient(num, den) <= 2 * num + den,
        2 * num < 2 * den * rounded_quotient(num, den) + den,
{
    let q = rounded_quotient(num, den);
    lemma_quotient_bound((2 * num + den) as int, (2 * den) as int, q as int);
    lemma_quotient_bound((2 * num + den) as int, (2 * den) as int, (q + 1) as int);
    assert(q * (2 * den) == 2 * den * q) by (nonlinear_arith);
    assert((q + 1) * (2 * den) == 2 * den * q + 2 * den) by (nonlinear_arith);
}

/// Rounding takes at most half a pixel from each section: the rounded widths
/// of the first `count` sections add up to at least the sum of the widths,
/// taken of the flag's width, less half a pixel for each section.
proof fn lemma_rounding_loss(sections: Seq<SectionModel>, flag_width: nat, count: nat)
    requires
        count <= sections.len(),
        forall|i: int| 0 <= i < sections.len() ==> (#[trigger] sections[i]).width.den > 0,
    ensures
        width_sum(sections, count).den > 0,
        2 * nominal_sum(section_widths(sections, flag_width), count)
            * width_sum(sections, count).den + count * width_sum(sections, count).den >= 2 * width_sum(
            sections,
            count,
        ).num * flag_width,
    decreases count,
{
    if count > 0 {
        let before = (count - 1) as nat;
        lemma_rounding_loss(sections, flag_width, before);
        let sum = width_sum(sections, before);
        let share = sections[count - 1].width;
        let rounded_before = nominal_sum(section_widths(sections, flag_width), before);
        let rounded = share.rounded_of(flag_width);
        assert(section_widths(sections, flag_width)[count - 1] == rounded);
        lemma_rounded_is_near(share.num * flag_width, share.den);
        let (n, d, r) = (share.num as int, share.den as int, rounded as int);
        let (sn, sd, sr) = (sum.num as int, sum.den as int, rounded_before as int);
        let w = flag_width as int;
        let k = before as int;
        assert(sd * d > 0) by (nonlinear_arith)
            requires
                sd > 0,
                d > 0,
        ;
        assert(d * (2 * sr * sd + k * sd) >= d * (2 * sn * w)) by (nonlinear_arith)
            requires
                2 * sr * sd + k * sd >= 2 * sn * w,
                d > 0,
        ;
        assert(sd * (2 * d * r + d) >= sd * (2 * (n * w))) by (nonlinear_arith)
            requires
                2 * (n * w) < 2 * d * r + d,
                sd > 0,
        ;
        assert(2 * (sr + r) * (sd * d) + (k + 1) * (sd * d) == d * (2 * sr * sd + k * sd) + sd * (2 * d * r + d))
            by (nonlinear_arith);
        assert(2 * (sn * d + n * sd) * w == d * (2 * sn * w) + sd * (2 * (n * w))) by (nonlinear_arith);
        let now = width_sum(sections, count);
        assert(now.num == sn * d + n * sd);
        assert(now.den == sd * d);
        assert(nominal_sum(section_widths(sections, flag_width), count) == sr + r);
        assert(count == k + 1);
    } else {
        assert(2 * 0 * 1 + 0 * 1 >= 2 * 0 * flag_width) by (nonlinear_arith);
    }
}

/// Where every section is a whole number of pixels wide, the widths of the
/// first `count` sections add up to the sum of the widths taken of the flag's width.
proof fn lemma_no_rounding_no_loss(sections: Seq<SectionModel>, flag_width: nat, count: nat)
    requires
        count <= sections.len(),
        forall|i: int| 0 <= i < sections.len() ==> (#[trigger] sections[i]).width.den > 0,
        forall|i: int|
            0 <= i < sections.len() ==> (#[trigger] sections[i]).width.num * flag_width % sections[i].width.den
                == 0,
    ensures
        width_sum(sections, count).den > 0,
        nominal_sum(section_widths(sections, flag_width), count)
            * width_sum(sections, count).den == width_sum(sections, count).num * flag_width,
    decreases count,
{
    if count > 0 {
        let before = (count - 1) as nat;
        lemma_no_rounding_no_loss(sections, flag_width, before);
        let sum = width_sum(sections, before);
        let share = sections[count - 1].width;
        let rounded_before = nominal_sum(section_widths(sections, flag_width), before);
        let rounded = share.rounded_of(flag_width);
        assert(section_widths(sections, flag_width)[count - 1] == rounded);
        lemma_whole_is_not_rounded(share.num * flag_width, share.den);
        let (n, d, r) = (share.num as int, share.den as int, rounded as int);
        let (sn, sd, sr) = (sum.num as int, sum.den as int, rounded_before as int);
        let w = flag_width as int;
        assert(sd * d > 0) by (nonlinear_arith)
            requires
                sd > 0,
                d > 0,
        ;
        let (a, b) = (sn * w, n * w);
        assert(sr * sd == a && r * d == b);
        assert((sr + r) * (sd * d) == (sr * sd) * d + (r * d) * sd) by (nonlinear_arith);
        assert((sn * d + n * sd) * w == (sn * w) * d + (n * w) * sd) by (nonlinear_arith);
        assert((sr + r) * (sd * d) == (sn * d + n * sd) * w);
        let now = width_sum(sections, count);
        assert(now.num == sn * d + n * sd);
        assert(now.den == sd * d);
        assert(nominal_sum(section_widths(sections, flag_width), count) == sr + r);
    } else {
        assert(0 * 1 == 0 * flag_width) by (nonlinear_arith);
    }
}

/// A quotient that is a whole number is its own rounding.
proof fn lemma_whole_is_not_rounded(num: nat, den: nat)
    requires
        den > 0,
        num % den == 0,
    ensures
        rounded_quotient(num, den) * den == num,
{
    let q = num / den;
    vstd::arithmetic::div_mod::lemma_fundamental_div_mod(num as int, den as int);
    assert(num == den * q);
    assert(2 * num + den == q * (2 * den) + den) by (nonlinear_arith)
        requires
            num == den * q,
    ;
    vstd::arithmetic::div_mod::lemma_fundamental_div_mod_converse(
        (2 * num + den) as int,
        (2 * den) as int,
        q as int,
        den as int,
    );
    assert(q * den == den * q) by (nonlinear_arith);
}

/// Sections whose widths add up to exactly one fill the flag from its left
/// edge to its right edge, each starting where the one before it ends,
/// unless rounding has made them narrower: they do where the rounded widths
/// add up to at least the width of the flag.
pub proof fn lemma_sections_fill_flag(flag: FlagModel, flag_width: nat)
    requires
        forall|i: int| 0 <= i < flag.sections.len() ==> (#[trigger] flag.sections[i]).width.den > 0,
        width_sum(flag.sections, flag.sections.len()).num == width_sum(flag.sections, flag.sections.len()).den,
        nominal_sum(section_widths(flag.sections, flag_width), flag.sections.len()) >= flag_width,
    ensures
        offset(section_widths(flag.sections, flag_width), flag_width, flag.sections.len()) == flag_width,
        forall|i: nat|
            i < flag.sections.len() ==> #[trigger] offset(section_widths(flag.sections, flag_width), flag_width, i + 1)
                == offset(section_widths(flag.sections, flag_width), flag_width, i) + extent(
                section_widths(flag.sections, flag_width),
                flag_width,
                i,
            ),
{
    lemma_offset_is_limited_sum(section_widths(flag.sections, flag_width), flag_width, flag.sections.len());
}

/// Sections whose widths add up to exactly one, each of them a whole number
/// of pixels wide, fill the flag from its left edge to its right edge, and
/// none of them is cut off.
pub proof fn lemma_whole_sections_fill_flag(flag: FlagModel, flag_width: nat)
    requires
        forall|i: int| 0 <= i < flag.sections.len() ==> (#[trigger] flag.sections[i]).width.den > 0,
        forall|i: int|
            0 <= i < flag.sections.len() ==> (#[trigger] flag.sections[i]).width.num * flag_width
                % flag.sections[i].width.den == 0,
        width_sum(flag.sections, flag.sections.len()).num == width_sum(flag.sections, flag.sections.len()).den,
    ensures
        offset(section_widths(flag.sections, flag_width), flag_width, flag.sections.len()) == flag_width,
        nominal_sum(section_widths(flag.sections, flag_width), flag.sections.len()) == flag_width,
{
    let count = flag.sections.len();
    let widths = section_widths(flag.sections, flag_width);
    lemma_no_rounding_no_loss(flag.sections, flag_width, count);
    let sum = width_sum(flag.sections, count);
    assert(nominal_sum(widths, count) == flag_width) by (nonlinear_arith)
        requires
            nominal_sum(widths, count) * sum.den == sum.num * flag_width,
            sum.num == sum.den,
            sum.den > 0,
    ;
    lemma_offset_is_limited_sum(widths, flag_width, count);
}

/// Sections whose widths add up to exactly one leave at most half a pixel
/// for each section free at the right edge of the flag.
pub proof fn lemma_sections_nearly_fill_flag(flag: FlagModel, flag_width: nat)
    requires
        forall|i: int| 0 <= i < flag.sections.len() ==> (#[trigger] flag.sections[i]).width.den > 0,
        width_sum(flag.sections, flag.sections.len()).num == width_sum(flag.sections, flag.sections.len()).den,
    ensures
        offset(section_widths(flag.sections, flag_width), flag_width, flag.sections.len()) <= flag_width,
        2 * (flag_width - offset(section_widths(flag.sections, flag_width), flag_width, flag.sections.len()))
            <= flag.sections.len(),
{
    let count = flag.sections.len();
    let widths = section_widths(flag.sections, flag_width);
    lemma_rounding_loss(flag.sections, flag_width, count);
    let sum = width_sum(flag.sections, count);
    assert(2 * nominal_sum(widths, count) + count >= 2 * flag_width) by (nonlinear_arith)
        requires
            2 * nominal_sum(widths, count) * sum.den + count * sum.den >= 2 * sum.num * flag_width,
            sum.num == sum.den,
            sum.den > 0,
    ;
    lemma_offset_is_limited_sum(widths, flag_width, count);
}

/// Every size of a valid flag resolves to a fraction with a denominator that is not zero.
pub proof fn lemma_valid_flag_has_fractions(flag: &Flag)
    requires
        flag.valid(),
    ensures
        flag.model().aspect.den > 0,
        flag.model().sections.len() == flag.sections@.len(),
        forall|i: int|
            0 <= i < flag.model().sections.len() ==> {
                &&& (#[trigger] flag.model().sections[i]).width.den > 0
                &&& flag.model().sections[i].subsections.len() == flag.sections@[i].subsections@.len()
                &&& forall|j: int|
                    0 <= j < flag.model().sections[i].subsections.len() ==> {
                        &&& (#[trigger] flag.model().sections[i].subsections[j]).width.den > 0
                        &&& flag.model().sections[i].subsections[j].height.den > 0
                    }
            },
{
    lemma_size_value_is_fraction(flag.aspect.0@);
    assert forall|i: int| 0 <= i < flag.model().sections.len() implies {
        &&& (#[trigger] flag.model().sections[i]).width.den > 0
        &&& flag.model().sections[i].subsections.len() == flag.sections@[i].subsections@.len()
        &&& forall|j: int|
            0 <= j < flag.model().sections[i].subsections.len() ==> {
                &&& (#[trigger] flag.model().sections[i].subsections[j]).width.den > 0
                &&& flag.model().sections[i].subsections[j].height.den > 0
            }
    } by {
        let section = flag.sections@[i];
        assert(section.valid());
        lemma_size_value_is_fraction(section.width.0@);
        assert forall|j: int| 0 <= j < section.model().subsections.len() implies {
            &&& (#[trigger] section.model().subsections[j]).width.den > 0
            &&& section.model().subsections[j].height.den > 0
        } by {
            assert(section.subsections@[j].valid());
            lemma_size_value_is_fraction(section.subsections@[j].width.0@);
            lemma_size_value_is_fraction(section.subsections@[j].height.0@);
        }
    }
}

/// Whether the rectangle of a subsection holds a pixel.
pub open spec fn covers(flag: FlagModel, place: Region, section: nat, subsection: nat, px: int, py: int) -> bool {
    in_rect(
        px,
        py,
        subsection_region(flag, place, section, subsection).x as int,
        subsection_region(flag, place, section, subsection).y as int,
        subsection_region(flag, place, section, subsection).width as int,
        subsection_region(flag, place, section, subsection).height as int,
    )
}

/// The first `count` subsections of a section leave a pixel as it was if
/// none of them holds it.
proof fn lemma_subsections_leave(
    grid: Seq<Seq<Color>>,
    flag: FlagModel,
    place: Region,
    section: nat,
    count: nat,
    px: int,
    py: int,
)
    requires
        0 <= py < grid.len(),
        0 <= px < grid[py].len(),
        forall|l: nat| l < count ==> !covers(flag, place, section, l, px, py),
    ensures
        with_subsections(grid, flag, place, section, count).len() == grid.len(),
        with_subsections(grid, flag, place, section, count)[py].len() == grid[py].len(),
        with_subsections(grid, flag, place, section, count)[py][px] == grid[py][px],
    decreases count,
{
    if count > 0 {
        lemma_subsections_leave(grid, flag, place, section, (count - 1) as nat, px, py);
        assert(!covers(flag, place, section, (count - 1) as nat, px, py));
    }
}

/// The first `count` subsections of a section give a pixel the color of the
/// last of them that holds it.
proof fn lemma_subsections_show_last(
    grid: Seq<Seq<Color>>,
    flag: FlagModel,
    place: Region,
    section: nat,
    count: nat,
    last: nat,
    px: int,
    py: int,
)
    requires
        0 <= py < grid.len(),
        0 <= px < grid[py].len(),
        last < count,
        covers(flag, place, section, last, px, py),
        forall|l: nat| last < l < count ==> !covers(flag, place, section, l, px, py),
    ensures
        with_subsections(grid, flag, place, section, count).len() == grid.len(),
        with_subsections(grid, flag, place, section, count)[py].len() == grid[py].len(),
        with_subsections(grid, flag, place, section, count)[py][px]
            == flag.sections[section as int].subsections[last as int].color,
    decreases count,
{
    if last == count - 1 {
        lemma_subsections_shape(grid, flag, place, section, (count - 1) as nat, py);
    } else {
        lemma_subsections_show_last(grid, flag, place, section, (count - 1) as nat, last, px, py);
        assert(!covers(flag, place, section, (count - 1) as nat, px, py));
    }
}

/// Painting subsections keeps the shape of a grid.
proof fn lemma_subsections_shape(
    grid: Seq<Seq<Color>>,
    flag: FlagModel,
    place: Region,
    section: nat,
    count: nat,
    py: int,
)
    requires
        0 <= py < grid.len(),
    ensures
        with_subsections(grid, flag, place, section, count).len() == grid.len(),
        with_subsections(grid, flag, place, section, count)[py].len() == grid[py].len(),
    decreases count,
{
    if count > 0 {
        lemma_subsections_shape(grid, flag, place, section, (count - 1) as nat, py);
    }
}

/// Painting sections keeps the shape of a grid.
proof fn lemma_sections_shape(grid: Seq<Seq<Color>>, flag: FlagModel, place: Region, count: nat, py: int)
    requires
        0 <= py < grid.len(),
    ensures
        with_sections(grid, flag, place, count).len() == grid.len(),
        with_sections(grid, flag, place, count)[py].len() == grid[py].len(),
    decreases count,
{
    if count > 0 {
        lemma_sections_shape(grid, flag, place, (count - 1) as nat, py);
        lemma_subsections_shape(
            with_sections(grid, flag, place, (count - 1) as nat),
            flag,
            place,
            (count - 1) as nat,
            flag.sections[count - 1].subsections.len(),
            py,
        );
    }
}

/// The first `count` sections leave a pixel as it was if none of their
/// subsections holds it.
proof fn lemma_sections_leave(
    grid: Seq<Seq<Color>>,
    flag: FlagModel,
    place: Region,
    count: nat,
    px: int,
    py: int,
)
    requires
        0 <= py < grid.len(),
        0 <= px < grid[py].len(),
        count <= flag.sections.len(),
        forall|k: nat, l: nat|
            k < count && l < flag.sections[k as int].subsections.len() ==> !covers(flag, place, k, l, px, py),
    ensures
        with_sections(grid, flag, place, count)[py][px] == grid[py][px],
    decreases count,
{
    if count > 0 {
        let before = with_sections(grid, flag, place, (count - 1) as nat);
        lemma_sections_leave(grid, flag, place, (count - 1) as nat, px, py);
        lemma_sections_shape(grid, flag, place, (count - 1) as nat, py);
        lemma_subsections_leave(
            before,
            flag,
            place,
            (count - 1) as nat,
            flag.sections[count - 1].subsections.len(),
            px,
            py,
        );
    }
}

/// The first `count` sections give a pixel the color of the last of their
/// subsections that holds it.
proof fn lemma_sections_show_last(
    grid: Seq<Seq<Color>>,
    flag: FlagModel,
    place: Region,
    count: nat,
    section: nat,
    subsection: nat,
    px: int,
    py: int,
)
    requires
        0 <= py < grid.len(),
        0 <= px < grid[py].len(),
        section < count <= flag.sections.len(),
        subsection < flag.sections[section as int].subsections.len(),
        covers(flag, place, section, subsection, px, py),
        forall|k: nat, l: nat|
            k < count && l < flag.sections[k as int].subsections.len() && (k > section || (k == section && l
                > subsection)) ==> !covers(flag, place, k, l, px, py),
    ensures
        with_sections(grid, flag, place, count)[py][px]
            == flag.sections[section as int].subsections[subsection as int].color,
    decreases count,
{
    let before = with_sections(grid, flag, place, (count - 1) as nat);
    let parts = flag.sections[count - 1].subsections.len();
    lemma_sections_shape(grid, flag, place, (count - 1) as nat, py);
    if section == count - 1 {
        lemma_subsections_show_last(before, flag, place, section, parts, subsection, px, py);
    } else {
        lemma_sections_show_last(grid, flag, place, (count - 1) as nat, section, subsection, px, py);
        lemma_subsections_leave(before, flag, place, (count - 1) as nat, parts, px, py);
    }
}

/// A pixel of the picture has the color of the subsection that was painted
/// last among those whose rectangles hold it: sections are painted from left
/// to right, and the subsections of each from top to bottom.
pub proof fn lemma_picture_shows_last_painted(
    flag: FlagModel,
    width: nat,
    height: nat,
    section: nat,
    subsection: nat,
    px: int,
    py: int,
)
    requires
        0 <= px < width,
        0 <= py < height,
        section < flag.sections.len(),
        subsection < flag.sections[section as int].subsections.len(),
        covers(flag, fitted(flag.aspect, width, height), section, subsection, px, py),
        forall|k: nat, l: nat|
            k < flag.sections.len() && l < flag.sections[k as int].subsections.len() && (k > section || (k
                == section && l > subsection)) ==> !covers(
                flag,
                fitted(flag.aspect, width, height),
                k,
                l,
                px,
                py,
            ),
    ensures
        picture(flag, width, height)[py][px] == flag.sections[section as int].subsections[subsection as int].color,
{
    lemma_sections_show_last(
        blank(width, height),
        flag,
        fitted(flag.aspect, width, height),
        flag.sections.len(),
        section,
        subsection,
        px,
        py,
    );
}

/// A pixel of the picture is black if the rectangle of no subsection holds it.
pub proof fn lemma_picture_is_black_where_nothing_is_painted(
    flag: FlagModel,
    width: nat,
    height: nat,
    px: int,
    py: int,
)
    requires
        0 <= px < width,
        0 <= py < height,
        forall|k: nat, l: nat|
            k < flag.sections.len() && l < flag.sections[k as int].subsections.len() ==> !covers(
                flag,
                fitted(flag.aspect, width, height),
                k,
                l,
                px,
                py,
            ),
    ensures
        picture(flag, width, height)[py][px] == Color::black(),
{
    lemma_sections_leave(
        blank(width, height),
        flag,
        fitted(flag.aspect, width, height),
        flag.sections.len(),
        px,
        py,
    );
}

/// Around the flag the canvas stays black: the picture is black at every
/// pixel that does not lie in the place that the flag is fitted to.
pub proof fn lemma_picture_is_black_around_flag(flag: FlagModel, width: nat, height: nat, px: int, py: int)
    requires
        0 <= px < width,
        0 <= py < height,
        !in_rect(
            px,
            py,
            fitted(flag.aspect, width, height).x as int,
            fitted(flag.aspect, width, height).y as int,
            fitted(flag.aspect, width, height).width as int,
            fitted(flag.aspect, width, height).height as int,
        ),
    ensures
        picture(flag, width, height)[py][px] == Color::black(),
{
    let place = fitted(flag.aspect, width, height);
    assert forall|k: nat, l: nat|
        k < flag.sections.len() && l < flag.sections[k as int].subsections.len() implies !covers(
        flag,
        place,
        k,
        l,
        px,
        py,
    ) by {
        lemma_subsection_within_flag(flag, place, k, l);
    }
    lemma_picture_is_black_where_nothing_is_painted(flag, width, height, px, py);
}

} // verus!
