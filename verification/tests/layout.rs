use cv_timeline::layout::{plan_label, LabelPlan, LabelRoom, TextAnchor};
use cv_timeline::placement::Side;

fn room(title: bool, sub: bool, two: bool, one: bool, has_sub: bool, spill_two: bool) -> LabelRoom {
    LabelRoom {
        title_fits: title,
        subtitle_fits: sub,
        two_lines_fit: two,
        one_line_fits: one,
        has_subtitle: has_sub,
        two_spilled_lines_fit: spill_two,
    }
}

#[test]
fn roomy_block_holds_title_and_subtitle() {
    assert_eq!(
        plan_label(Side::Right, room(true, true, true, true, true, false)),
        LabelPlan::Inside { with_subtitle: true }
    );
}

#[test]
fn short_block_holds_title_only() {
    assert_eq!(
        plan_label(Side::Left, room(true, true, false, true, true, true)),
        LabelPlan::Inside { with_subtitle: false }
    );
    assert_eq!(
        plan_label(Side::Left, room(true, false, true, true, true, true)),
        LabelPlan::Inside { with_subtitle: false }
    );
}

#[test]
fn narrow_block_spills_away_from_the_axis() {
    assert_eq!(
        plan_label(Side::Right, room(false, true, true, true, true, true)),
        LabelPlan::Spill { anchor: TextAnchor::TopLeft, with_subtitle: true }
    );
    assert_eq!(
        plan_label(Side::Left, room(true, true, false, false, true, false)),
        LabelPlan::Spill { anchor: TextAnchor::TopRight, with_subtitle: false }
    );
}
