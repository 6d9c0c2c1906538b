use cv_timeline::model::{Color, Timeline, TimelineBlock, Year};
use cv_timeline::placement::{assign_placement, lane_counts, prev_end_year, Side};

fn block(title: &str, start: f32, end: f32) -> TimelineBlock {
    TimelineBlock {
        title: title.to_owned(),
        subtitle: None,
        start_year: Year::from_bits(start.to_bits()),
        end_year: Year::from_bits(end.to_bits()),
        color: Color { r: 1, g: 2, b: 3, a: 255 },
    }
}

fn timeline(blocks: Vec<TimelineBlock>) -> Timeline {
    Timeline {
        start_year: Year::from_bits(2000.0f32.to_bits()),
        end_year: Year::from_bits(2030.0f32.to_bits()),
        blocks,
    }
}

#[test]
fn sides_alternate_in_chronological_order() {
    // Listed out of order: chronological order is b, c, a, d.
    let t = timeline(vec![
        block("a", 2012.0, 2013.0),
        block("b", 2001.0, 2002.0),
        block("c", 2005.0, 2006.0),
        block("d", 2020.0, 2021.0),
    ]);
    let p = assign_placement(&t);
    assert_eq!(p, vec![(Side::Right, 0), (Side::Right, 0), (Side::Left, 0), (Side::Left, 0)]);
}

#[test]
fn equal_starts_keep_list_order() {
    let t = timeline(vec![block("a", 2010.0, 2011.0), block("b", 2010.0, 2011.0)]);
    let p = assign_placement(&t);
    assert_eq!(p, vec![(Side::Right, 0), (Side::Left, 0)]);
    assert_eq!(p.len(), t.blocks.len());
}

#[test]
fn overlapping_blocks_on_one_side_get_separate_lanes() {
    // Chronological ranks 0 and 2 land on the right and overlap in time.
    let t = timeline(vec![
        block("a", 2000.0, 2010.0),
        block("b", 2001.0, 2002.0),
        block("c", 2005.0, 2008.0),
        block("d", 2006.0, 2007.0),
        block("e", 2011.0, 2012.0),
    ]);
    let p = assign_placement(&t);
    assert_eq!(
        p,
        vec![
            (Side::Right, 0),
            (Side::Left, 0),
            (Side::Right, 1),
            (Side::Left, 0),
            (Side::Right, 0),
        ]
    );
    assert_eq!(lane_counts(&p), (1, 2));
}

#[test]
fn touching_blocks_share_a_lane() {
    // The third block starts exactly when the first ends: same lane.
    let t = timeline(vec![
        block("a", 2000.0, 2004.0),
        block("b", 2001.0, 2002.0),
        block("c", 2004.0, 2005.0),
    ]);
    assert_eq!(assign_placement(&t)[2], (Side::Right, 0));
}

#[test]
fn nan_start_never_fits_an_existing_lane() {
    let t = timeline(vec![
        block("a", 2000.0, 2004.0),
        block("b", 2001.0, 2002.0),
        block("c", f32::NAN, 2005.0),
    ]);
    // NaN sorts last (total order) and fits no lane (f32 >= is false).
    assert_eq!(assign_placement(&t)[2], (Side::Right, 1));
}

#[test]
fn lane_counts_default_to_one() {
    assert_eq!(lane_counts(&[]), (1, 1));
    assert_eq!(lane_counts(&[(Side::Left, 3), (Side::Left, 1)]), (4, 1));
    assert_eq!(lane_counts(&[(Side::Right, 0), (Side::Right, 2)]), (1, 3));
}

#[test]
fn prev_end_year_is_start_of_previous_block_in_lane() {
    let t = timeline(vec![
        block("a", 2000.0, 2003.0),
        block("b", 2001.0, 2002.0),
        block("c", 2004.0, 2006.0),
        block("d", 2005.0, 2007.0),
        block("e", 2008.0, 2009.0),
    ]);
    let p = assign_placement(&t);
    assert_eq!(
        p,
        vec![(Side::Right, 0), (Side::Left, 0), (Side::Right, 0), (Side::Left, 0), (Side::Right, 0)]
    );
    let prev = prev_end_year(&t, &p);
    let as_f32: Vec<Option<f32>> = prev.iter().map(|y| y.map(|y| f32::from_bits(y.to_bits()))).collect();
    assert_eq!(as_f32, vec![None, None, Some(2000.0), Some(2001.0), Some(2004.0)]);
}

#[test]
fn lane_neighbours_never_overlap_on_a_crowded_timeline() {
    let mut blocks = Vec::new();
    for i in 0..40 {
        let start = 2000.0 + (i * 7 % 23) as f32 * 0.5;
        let len = 0.25 + (i * 5 % 11) as f32 * 0.75;
        blocks.push(block("x", start, start + len));
    }
    let t = timeline(blocks);
    let p = assign_placement(&t);
    let prev = prev_end_year(&t, &p);
    let (left, right) = lane_counts(&p);
    for i in 0..t.blocks.len() {
        if let Some(s) = prev[i] {
            assert!(t.blocks[i].start_year.ge(&s));
        }
        for j in 0..t.blocks.len() {
            let earlier = t.blocks[j].start_year.total_key() < t.blocks[i].start_year.total_key()
                || (t.blocks[j].start_year.total_key() == t.blocks[i].start_year.total_key() && j < i);
            if p[i] == p[j] && earlier {
                assert!(t.blocks[i].start_year.ge(&t.blocks[j].end_year));
            }
        }
        let (side, depth) = p[i];
        assert!(depth < t.blocks.len());
        match side {
            Side::Left => assert!(depth < left),
            Side::Right => assert!(depth < right),
        }
    }
}

#[test]
fn blocks_beyond_the_placement_have_no_predecessor() {
    let t = timeline(vec![
        block("a", 2000.0, 2001.0),
        block("b", 2002.0, 2003.0),
        block("c", 2004.0, 2005.0),
    ]);
    let p = vec![(Side::Right, 0), (Side::Right, 0)];
    let prev = prev_end_year(&t, &p);
    assert_eq!(prev.len(), 3);
    assert_eq!(prev[0], None);
    assert_eq!(prev[1].map(|y| f32::from_bits(y.to_bits())), Some(2000.0));
    assert_eq!(prev[2], None);
}
