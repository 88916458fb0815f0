use pixelsort::{run_length, sort_row, sort_run, Pixel, SortHeuristic, SortOptions};

fn reds(values: &[u8]) -> Vec<Pixel> {
    values.iter().map(|&r| Pixel::new(r, 0, 0, 255)).collect()
}

fn example_row() -> Vec<Pixel> {
    reds(&[10, 200, 5, 100])
}

fn as_tuples(row: &[Pixel]) -> Vec<(u8, u8, u8, u8)> {
    row.iter().map(|p| (p.r, p.g, p.b, p.a)).collect()
}

fn mixed_row() -> Vec<Pixel> {
    vec![
        Pixel::new(90, 10, 200, 255),
        Pixel::new(12, 240, 7, 0),
        Pixel::new(12, 30, 99, 255),
        Pixel::new(250, 250, 250, 17),
        Pixel::new(0, 0, 0, 0),
        Pixel::new(64, 128, 32, 255),
        Pixel::new(200, 3, 3, 255),
        Pixel::new(12, 240, 7, 255),
        Pixel::new(5, 5, 80, 0),
        Pixel::new(130, 120, 110, 255),
        Pixel::new(255, 0, 255, 255),
        Pixel::new(64, 128, 32, 255),
    ]
}

const ALL: [SortHeuristic; 11] = [
    SortHeuristic::Luma,
    SortHeuristic::Brightness,
    SortHeuristic::Max,
    SortHeuristic::Min,
    SortHeuristic::Chroma,
    SortHeuristic::Hue,
    SortHeuristic::Saturation,
    SortHeuristic::Value,
    SortHeuristic::Red,
    SortHeuristic::Blue,
    SortHeuristic::Green,
];

fn configurations() -> Vec<SortOptions> {
    let mut all = Vec::new();
    for heuristic in ALL {
        for (minimum, maximum) in [(0u8, 255u8), (50, 200), (100, 100), (200, 50), (0, 0)] {
            for invert in [false, true] {
                for reverse in [false, true] {
                    for mask_alpha in [false, true] {
                        all.push(SortOptions { heuristic, minimum, maximum, invert, reverse, mask_alpha });
                    }
                }
            }
        }
    }
    all
}

fn sorted_with(row: &[Pixel], o: &SortOptions) -> Vec<Pixel> {
    let mut out = row.to_vec();
    sort_row(&mut out, o.heuristic, o.minimum, o.maximum, o.invert, o.reverse, o.mask_alpha);
    out
}

#[test]
fn whole_row_is_one_run() {
    let mut row = example_row();
    sort_row(&mut row, SortHeuristic::Red, 0, 255, false, false, false);
    assert_eq!(row, reds(&[5, 10, 100, 200]));
}

#[test]
fn runs_of_one_pixel_change_nothing() {
    let mut row = example_row();
    sort_row(&mut row, SortHeuristic::Red, 50, 255, false, false, false);
    assert_eq!(row, example_row());
}

#[test]
fn reverse_sorts_downwards() {
    let mut row = example_row();
    sort_row(&mut row, SortHeuristic::Red, 0, 255, false, true, false);
    assert_eq!(row, reds(&[200, 100, 10, 5]));
}

#[test]
fn each_run_is_sorted_where_it_stands() {
    let mut row = reds(&[90, 60, 70, 10, 250, 200, 5, 80]);
    sort_row(&mut row, SortHeuristic::Red, 50, 255, false, false, false);
    assert_eq!(row, reds(&[60, 70, 90, 10, 200, 250, 5, 80]));
}

#[test]
fn invert_sorts_outside_the_range() {
    let mut row = reds(&[10, 5, 200, 3, 1]);
    sort_row(&mut row, SortHeuristic::Red, 50, 255, true, false, false);
    assert_eq!(row, reds(&[5, 10, 200, 1, 3]));
    let mut row = reds(&[10, 5, 200, 3, 1]);
    sort_row(&mut row, SortHeuristic::Red, 50, 255, true, true, false);
    assert_eq!(row, reds(&[10, 5, 200, 3, 1]));
}

#[test]
fn the_bounds_are_inclusive() {
    let mut row = reds(&[201, 200, 50, 49, 120]);
    sort_row(&mut row, SortHeuristic::Red, 50, 200, false, false, false);
    assert_eq!(row, reds(&[201, 50, 200, 49, 120]));
}

#[test]
fn empty_range_leaves_the_row() {
    let mut row = example_row();
    sort_row(&mut row, SortHeuristic::Red, 200, 50, false, false, false);
    assert_eq!(row, example_row());
}

#[test]
fn empty_range_inverted_sorts_the_row() {
    let mut row = example_row();
    sort_row(&mut row, SortHeuristic::Red, 200, 50, true, false, false);
    assert_eq!(row, reds(&[5, 10, 100, 200]));
}

#[test]
fn empty_row_is_a_no_op() {
    let mut row: Vec<Pixel> = Vec::new();
    sort_row(&mut row, SortHeuristic::Luma, 0, 255, false, false, false);
    assert!(row.is_empty());
    sort_row(&mut row, SortHeuristic::Hue, 9, 3, true, true, true);
    assert!(row.is_empty());
}

#[test]
fn single_pixel_row() {
    let mut row = vec![Pixel::new(1, 2, 3, 4)];
    sort_row(&mut row, SortHeuristic::Luma, 0, 255, false, false, false);
    assert_eq!(row, vec![Pixel::new(1, 2, 3, 4)]);
    sort_row(&mut row, SortHeuristic::Luma, 0, 255, true, true, true);
    assert_eq!(row, vec![Pixel::new(1, 2, 3, 4)]);
}

#[test]
fn transparent_pixels_stay_with_the_mask() {
    let mut row = vec![
        Pixel::new(10, 0, 0, 255),
        Pixel::new(5, 0, 0, 0),
        Pixel::new(3, 0, 0, 255),
        Pixel::new(1, 0, 0, 255),
    ];
    sort_row(&mut row, SortHeuristic::Red, 0, 255, false, false, true);
    assert_eq!(
        row,
        vec![
            Pixel::new(10, 0, 0, 255),
            Pixel::new(5, 0, 0, 0),
            Pixel::new(1, 0, 0, 255),
            Pixel::new(3, 0, 0, 255),
        ]
    );
}

#[test]
fn transparent_pixels_move_without_the_mask() {
    let mut row = vec![
        Pixel::new(10, 0, 0, 255),
        Pixel::new(5, 0, 0, 0),
        Pixel::new(3, 0, 0, 255),
        Pixel::new(1, 0, 0, 255),
    ];
    sort_row(&mut row, SortHeuristic::Red, 0, 255, false, false, false);
    assert_eq!(
        row,
        vec![
            Pixel::new(1, 0, 0, 255),
            Pixel::new(3, 0, 0, 255),
            Pixel::new(5, 0, 0, 0),
            Pixel::new(10, 0, 0, 255),
        ]
    );
}

#[test]
fn mask_on_an_opaque_row_changes_nothing() {
    let row = reds(&[90, 60, 70, 10, 250, 200, 5, 80]);
    for o in configurations() {
        let masked = SortOptions { mask_alpha: true, ..o };
        let plain = SortOptions { mask_alpha: false, ..o };
        assert_eq!(sorted_with(&row, &masked), sorted_with(&row, &plain));
    }
}

#[test]
fn mask_holds_back_inverted_pixels_too() {
    let row = vec![Pixel::new(9, 0, 0, 255), Pixel::new(7, 0, 0, 0), Pixel::new(1, 0, 0, 255)];
    let out = sorted_with(
        &row,
        &SortOptions {
            heuristic: SortHeuristic::Red,
            minimum: 100,
            maximum: 200,
            invert: true,
            reverse: false,
            mask_alpha: true,
        },
    );
    assert_eq!(out, row);
}

#[test]
fn equal_values_keep_their_order() {
    let mut row = vec![
        Pixel::new(7, 1, 0, 255),
        Pixel::new(3, 2, 0, 255),
        Pixel::new(7, 3, 0, 255),
        Pixel::new(3, 4, 0, 255),
        Pixel::new(7, 5, 0, 255),
    ];
    let given = row.clone();
    sort_row(&mut row, SortHeuristic::Red, 0, 255, false, false, false);
    assert_eq!(row, vec![given[1], given[3], given[0], given[2], given[4]]);
    let mut row = given.clone();
    sort_row(&mut row, SortHeuristic::Red, 0, 255, false, true, false);
    assert_eq!(row, vec![given[0], given[2], given[4], given[1], given[3]]);
}

#[test]
fn sorts_by_the_chosen_heuristic() {
    let given = vec![
        Pixel::new(255, 255, 255, 255),
        Pixel::new(0, 0, 255, 255),
        Pixel::new(255, 0, 0, 255),
        Pixel::new(0, 255, 0, 255),
    ];
    // luma: 223, 127, 63, 31
    let mut row = given.clone();
    sort_row(&mut row, SortHeuristic::Luma, 0, 255, false, false, false);
    assert_eq!(row, vec![given[3], given[2], given[1], given[0]]);
    // hue: 0, 171, 0, 85
    let mut row = given.clone();
    sort_row(&mut row, SortHeuristic::Hue, 0, 255, false, false, false);
    assert_eq!(row, vec![given[0], given[2], given[3], given[1]]);
    // green: 255, 0, 0, 255, sorted from 1 to 255 only
    let mut row = given.clone();
    sort_row(&mut row, SortHeuristic::Green, 1, 255, false, false, false);
    assert_eq!(row, given);
}

#[test]
fn pixels_are_only_moved() {
    let row = mixed_row();
    let mut want = as_tuples(&row);
    want.sort();
    for o in configurations() {
        let mut got = as_tuples(&sorted_with(&row, &o));
        got.sort();
        assert_eq!(got, want);
        assert_eq!(sorted_with(&row, &o).len(), row.len());
    }
}

#[test]
fn sorting_twice_is_sorting_once() {
    let row = mixed_row();
    for o in configurations() {
        let once = sorted_with(&row, &o);
        let twice = sorted_with(&once, &o);
        assert_eq!(twice, once);
    }
}

#[test]
fn runs_of_the_result_are_in_order() {
    let row = mixed_row();
    for o in configurations() {
        let out = sorted_with(&row, &o);
        for i in 1..out.len() {
            if o.is_sortable(&out[i - 1]) && o.is_sortable(&out[i]) {
                let left = o.heuristic.func(&out[i - 1]);
                let right = o.heuristic.func(&out[i]);
                if o.reverse {
                    assert!(left >= right);
                } else {
                    assert!(left <= right);
                }
            }
        }
    }
}

#[test]
fn unsortable_pixels_stay() {
    let row = mixed_row();
    for o in configurations() {
        let out = sorted_with(&row, &o);
        for i in 0..row.len() {
            assert_eq!(o.is_sortable(&out[i]), o.is_sortable(&row[i]));
            if !o.is_sortable(&row[i]) {
                assert_eq!(out[i], row[i]);
            }
            if o.mask_alpha && row[i].a == 0 {
                assert_eq!(out[i], row[i]);
            }
        }
    }
}

#[test]
fn invert_complements_where_the_mask_passes() {
    let row = mixed_row();
    for o in configurations() {
        let plain = SortOptions { invert: false, ..o };
        let inverted = SortOptions { invert: true, ..o };
        for p in &row {
            if o.mask_alpha && p.a == 0 {
                assert!(!plain.is_sortable(p));
                assert!(!inverted.is_sortable(p));
            } else {
                assert_eq!(inverted.is_sortable(p), !plain.is_sortable(p));
            }
        }
    }
}

#[test]
fn is_sortable_follows_range_invert_and_mask() {
    let o = SortOptions {
        heuristic: SortHeuristic::Red,
        minimum: 50,
        maximum: 60,
        invert: false,
        reverse: false,
        mask_alpha: true,
    };
    assert!(o.is_sortable(&Pixel::new(50, 0, 0, 1)));
    assert!(o.is_sortable(&Pixel::new(60, 0, 0, 255)));
    assert!(!o.is_sortable(&Pixel::new(49, 0, 0, 255)));
    assert!(!o.is_sortable(&Pixel::new(61, 0, 0, 255)));
    assert!(!o.is_sortable(&Pixel::new(55, 0, 0, 0)));
    let inverted = SortOptions { invert: true, ..o };
    assert!(!inverted.is_sortable(&Pixel::new(50, 0, 0, 1)));
    assert!(inverted.is_sortable(&Pixel::new(49, 0, 0, 255)));
    assert!(inverted.is_sortable(&Pixel::new(61, 0, 0, 255)));
    assert!(!inverted.is_sortable(&Pixel::new(61, 0, 0, 0)));
    let unmasked = SortOptions { mask_alpha: false, ..o };
    assert!(unmasked.is_sortable(&Pixel::new(55, 0, 0, 0)));
}

#[test]
fn default_options() {
    let o = SortOptions::default();
    assert_eq!(o.heuristic, SortHeuristic::Luma);
    assert_eq!(o.minimum, 0);
    assert_eq!(o.maximum, 255);
    assert!(!o.invert);
    assert!(!o.reverse);
    assert!(!o.mask_alpha);
    for p in mixed_row() {
        assert!(o.is_sortable(&p));
    }
}

#[test]
fn run_length_counts_to_the_first_other_pixel() {
    let row = reds(&[90, 60, 10, 250, 200, 5]);
    let o = SortOptions {
        heuristic: SortHeuristic::Red,
        minimum: 50,
        maximum: 255,
        invert: false,
        reverse: false,
        mask_alpha: false,
    };
    assert_eq!(run_length(&row, 0, &o, true), 2);
    assert_eq!(run_length(&row, 0, &o, false), 0);
    assert_eq!(run_length(&row, 1, &o, true), 1);
    assert_eq!(run_length(&row, 2, &o, true), 0);
    assert_eq!(run_length(&row, 2, &o, false), 1);
    assert_eq!(run_length(&row, 3, &o, true), 2);
    assert_eq!(run_length(&row, 5, &o, false), 1);
    assert_eq!(run_length(&row, 6, &o, true), 0);
    assert_eq!(run_length(&row, 6, &o, false), 0);
}

#[test]
fn sort_run_sorts_a_span_only() {
    let mut row = reds(&[9, 8, 7, 6, 5, 4]);
    sort_run(&mut row, 1, 4, SortHeuristic::Red, false);
    assert_eq!(row, reds(&[9, 6, 7, 8, 5, 4]));
    sort_run(&mut row, 0, 6, SortHeuristic::Red, true);
    assert_eq!(row, reds(&[9, 8, 7, 6, 5, 4]));
    sort_run(&mut row, 3, 3, SortHeuristic::Red, false);
    assert_eq!(row, reds(&[9, 8, 7, 6, 5, 4]));
    sort_run(&mut row, 5, 6, SortHeuristic::Red, false);
    assert_eq!(row, reds(&[9, 8, 7, 6, 5, 4]));
    sort_run(&mut row, 4, 6, SortHeuristic::Red, false);
    assert_eq!(row, reds(&[9, 8, 7, 6, 4, 5]));
}

#[test]
fn sort_run_handles_every_value() {
    let mut row: Vec<Pixel> = (0..=255u8).rev().map(|r| Pixel::new(r, r / 2, 0, 255)).collect();
    row.extend((0..=255u8).map(|r| Pixel::new(r, 200, 1, 255)));
    let len = row.len();
    sort_run(&mut row, 0, len, SortHeuristic::Red, false);
    for (i, p) in row.iter().enumerate() {
        assert_eq!(p.r as usize, i / 2);
        assert_eq!(p.b as usize, i % 2);
    }
    sort_run(&mut row, 0, len, SortHeuristic::Red, true);
    for (i, p) in row.iter().enumerate() {
        assert_eq!(p.r as usize, 255 - i / 2);
        assert_eq!(p.b as usize, i % 2);
    }
}
