use vstd::prelude::*;
use crate::placement::Side;

verus! {

/// Where a text is anchored relative to the position it is drawn at.
#[derive(Clone, Copy, Debug, PartialEq, Eq, Structural)]
pub enum TextAnchor {
    TopLeft,
    /// Right-aligned horizontally, top-aligned vertically - used for labels
    /// that spill out of a block on the left side of the axis.
    TopRight,
    /// Right-aligned horizontally, vertically centered - used for the year
    /// labels next to the axis.
    CenterRight,
}

/// How a block's title and subtitle are drawn.
#[derive(Clone, Copy, Debug, PartialEq, Eq, Structural)]
pub enum LabelPlan {
    /// Inside the block at its top left, the subtitle below the title when
    /// `with_subtitle` holds.
    Inside { with_subtitle: bool },
    /// Outside all lanes of the block's side, away from the axis, anchored
    /// with `anchor`, the (shortened) subtitle below the (shortened) title
    /// when `with_subtitle` holds.
    Spill { anchor: TextAnchor, with_subtitle: bool },
}

/// What a block's measurements say about its label.
#[derive(Clone, Copy, Debug)]
pub struct LabelRoom {
    /// The title fits across the block.
    pub title_fits: bool,
    /// The subtitle, if there is one, fits across the block.
    pub subtitle_fits: bool,
    /// The block is tall enough for two lines.
    pub two_lines_fit: bool,
    /// The block is tall enough for one line.
    pub one_line_fits: bool,
    /// The block has a subtitle.
    pub has_subtitle: bool,
    /// Below the top of the block there is room for two spilled lines
    /// before the label of the block below it in its lane.
    pub two_spilled_lines_fit: bool,
}

/// The anchor of a label spilled out on `side`: its text runs away from the
/// axis.
pub open spec fn spill_anchor(side: Side) -> TextAnchor {
    match side {
        Side::Right => TextAnchor::TopLeft,
        Side::Left => TextAnchor::TopRight,
    }
}

/// Title and subtitle go inside the block when both fit across it and it
/// is tall enough for two lines; the title alone goes inside when it fits
/// across and the block is tall enough for one line; otherwise the label
/// spills out beside the lanes, with the subtitle only when two spilled
/// lines fit above the next label below.
pub open spec fn label_plan(side: Side, room: LabelRoom) -> LabelPlan {
    if room.title_fits && room.subtitle_fits && room.two_lines_fit {
        LabelPlan::Inside { with_subtitle: room.has_subtitle }
    } else if room.title_fits && room.one_line_fits {
        LabelPlan::Inside { with_subtitle: false }
    } else {
        LabelPlan::Spill {
            anchor: spill_anchor(side),
            with_subtitle: room.has_subtitle && room.two_spilled_lines_fit,
        }
    }
}

/// How the label of a block on `side` with the given room is drawn.
pub fn plan_label(side: Side, room: LabelRoom) -> (plan: LabelPlan)
    ensures
        plan == label_plan(side, room),
        (plan is Inside) == (room.title_fits && (room.one_line_fits || (room.subtitle_fits
            && room.two_lines_fit))),
        plan matches LabelPlan::Inside { with_subtitle } ==> with_subtitle == (room.has_subtitle
            && room.subtitle_fits && room.two_lines_fit),
        plan matches LabelPlan::Spill { anchor, with_subtitle } ==> {
            &&& anchor == (if side == Side::Right {
                TextAnchor::TopLeft
            } else {
                TextAnchor::TopRight
            })
            &&& with_subtitle == (room.has_subtitle && room.two_spilled_lines_fit)
        },
{
    proof {
        label_plan_law(side, room);
    }
    if room.title_fits && room.subtitle_fits && room.two_lines_fit {
        LabelPlan::Inside { with_subtitle: room.has_subtitle }
    } else if room.title_fits && room.one_line_fits {
        LabelPlan::Inside { with_subtitle: false }
    } else {
        let anchor = match side {
            Side::Right => TextAnchor::TopLeft,
            Side::Left => TextAnchor::TopRight,
        };
        LabelPlan::Spill { anchor, with_subtitle: room.has_subtitle && room.two_spilled_lines_fit }
    }
}

/// A label goes inside its block exactly when the title fits across the
/// block and the block is tall enough for the title alone, or for title and
/// subtitle when the subtitle fits across too; whether there is a subtitle
/// plays no part in that. Inside, the subtitle is drawn exactly when there
/// is one, it fits across and the block is tall enough for two lines. A
/// spilled label runs away from the axis (left-anchored on the right side,
/// right-anchored on the left) and keeps its subtitle exactly when there is
/// one and two spilled lines fit.
pub proof fn label_plan_law(side: Side, room: LabelRoom)
    ensures
        (label_plan(side, room) is Inside) == (room.title_fits && (room.one_line_fits || (
        room.subtitle_fits && room.two_lines_fit))),
        label_plan(side, room) matches LabelPlan::Inside { with_subtitle } ==> with_subtitle == (
        room.has_subtitle && room.subtitle_fits && room.two_lines_fit),
        label_plan(side, room) matches LabelPlan::Spill { anchor, with_subtitle } ==> {
            &&& anchor == (if side == Side::Right {
                TextAnchor::TopLeft
            } else {
                TextAnchor::TopRight
            })
            &&& with_subtitle == (room.has_subtitle && room.two_spilled_lines_fit)
        },
{
}

} // verus!
