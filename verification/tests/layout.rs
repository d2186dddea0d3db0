use flagview::bitmap::{Bitmap, Color};
use flagview::flag::{layout, render_flag, viewport, Flag, FlagError, FlagSection, FlagSubSection, Viewport};
use flagview::ratio::Ratio;
use flagview::render::Renderer;
use flagview::util::PartialSize;

fn size(text: &str) -> PartialSize {
    PartialSize(text.to_string())
}

fn part(width: &str, height: &str, color: [u8; 3]) -> FlagSubSection {
    FlagSubSection { width: size(width), height: size(height), color }
}

fn section(width: &str, subsections: Vec<FlagSubSection>) -> FlagSection {
    FlagSection { width: size(width), subsections }
}

fn pixel(bitmap: &Bitmap, x: usize, y: usize) -> (u8, u8, u8) {
    let color = bitmap.get(x, y).unwrap();
    (color.red, color.green, color.blue)
}

#[test]
fn viewport_of_three_by_two_flag_on_square_canvas() {
    let aspect = size("3/2").as_number().unwrap();
    let place = viewport(&aspect, 200, 200);
    assert_eq!(place, Viewport { x: 0, y: 34, width: 200, height: 133 });
}

#[test]
fn viewport_of_tall_flag_is_centered_horizontally() {
    let aspect = Ratio::from_u64s(1, 2).unwrap();
    let place = viewport(&aspect, 200, 100);
    assert_eq!(place, Viewport { x: 75, y: 0, width: 50, height: 100 });
}

#[test]
fn viewport_of_matching_flag_fills_canvas() {
    let aspect = size("2").as_number().unwrap();
    let place = viewport(&aspect, 64, 32);
    assert_eq!(place, Viewport { x: 0, y: 0, width: 64, height: 32 });
}

#[test]
fn viewport_rounds_half_margin_up() {
    let aspect = size("3/2").as_number().unwrap();
    let place = viewport(&aspect, 3, 3);
    assert_eq!(place, Viewport { x: 0, y: 1, width: 3, height: 2 });
    let aspect = size("0.5").as_number().unwrap();
    let place = viewport(&aspect, 10, 5);
    assert_eq!(place, Viewport { x: 4, y: 0, width: 3, height: 5 });
}

#[test]
fn viewport_on_empty_canvas() {
    let aspect = size("3/2").as_number().unwrap();
    assert_eq!(viewport(&aspect, 0, 0), Viewport { x: 0, y: 0, width: 0, height: 0 });
    assert_eq!(viewport(&aspect, 10, 0), Viewport { x: 5, y: 0, width: 0, height: 0 });
    assert_eq!(viewport(&aspect, 0, 10), Viewport { x: 0, y: 5, width: 0, height: 0 });
}

#[test]
fn viewport_of_zero_aspect() {
    let aspect = size("0").as_number().unwrap();
    assert_eq!(viewport(&aspect, 10, 10), Viewport { x: 5, y: 0, width: 0, height: 10 });
}

#[test]
fn single_red_section_fills_square_canvas() {
    let flag = Flag { aspect: size("1"), sections: vec![section("1", vec![part("1", "1", [255, 0, 0])])] };
    let bitmap = layout(&flag, 10, 10).unwrap();
    assert_eq!(bitmap.width(), 10);
    assert_eq!(bitmap.height(), 10);
    for y in 0..10 {
        for x in 0..10 {
            assert_eq!(pixel(&bitmap, x, y), (255, 0, 0));
        }
    }
}

#[test]
fn two_half_sections_split_canvas() {
    let flag = Flag {
        aspect: size("1"),
        sections: vec![
            section("50%", vec![part("1", "1", [1, 2, 3])]),
            section("50%", vec![part("1", "1", [4, 5, 6])]),
        ],
    };
    let bitmap = layout(&flag, 10, 10).unwrap();
    for y in 0..10 {
        for x in 0..5 {
            assert_eq!(pixel(&bitmap, x, y), (1, 2, 3));
        }
        for x in 5..10 {
            assert_eq!(pixel(&bitmap, x, y), (4, 5, 6));
        }
    }
}

#[test]
fn flag_is_centered_and_margin_stays_black() {
    let flag = Flag { aspect: size("3/2"), sections: vec![section("100%", vec![part("1", "1", [9, 9, 9])])] };
    let bitmap = layout(&flag, 200, 200).unwrap();
    for x in [0usize, 57, 199] {
        for y in 0..34 {
            assert_eq!(pixel(&bitmap, x, y), (0, 0, 0));
        }
        for y in 34..167 {
            assert_eq!(pixel(&bitmap, x, y), (9, 9, 9));
        }
        for y in 167..200 {
            assert_eq!(pixel(&bitmap, x, y), (0, 0, 0));
        }
    }
}

#[test]
fn sections_past_the_edge_are_cut_off() {
    let flag = Flag {
        aspect: size("1"),
        sections: vec![
            section("0.7", vec![part("1", "1", [1, 1, 1])]),
            section("0.7", vec![part("1", "1", [2, 2, 2])]),
            section("0.7", vec![part("1", "1", [3, 3, 3])]),
        ],
    };
    let bitmap = layout(&flag, 10, 10).unwrap();
    for y in 0..10 {
        for x in 0..7 {
            assert_eq!(pixel(&bitmap, x, y), (1, 1, 1));
        }
        for x in 7..10 {
            assert_eq!(pixel(&bitmap, x, y), (2, 2, 2));
        }
    }
}

#[test]
fn subsections_past_the_bottom_are_cut_off() {
    let flag = Flag {
        aspect: size("1"),
        sections: vec![section(
            "1",
            vec![part("1", "60%", [1, 1, 1]), part("1", "60%", [2, 2, 2]), part("1", "60%", [3, 3, 3])],
        )],
    };
    let bitmap = layout(&flag, 10, 10).unwrap();
    for x in 0..10 {
        for y in 0..6 {
            assert_eq!(pixel(&bitmap, x, y), (1, 1, 1));
        }
        for y in 6..10 {
            assert_eq!(pixel(&bitmap, x, y), (2, 2, 2));
        }
    }
}

#[test]
fn sections_that_sum_to_one_tile_the_flag() {
    let flag = Flag {
        aspect: size("1"),
        sections: vec![
            section("25%", vec![part("1", "1", [1, 1, 1])]),
            section("1/4", vec![part("1", "1", [2, 2, 2])]),
            section("0.5", vec![part("1", "1", [3, 3, 3])]),
        ],
    };
    let bitmap = layout(&flag, 100, 100).unwrap();
    for y in [0usize, 50, 99] {
        for x in 0..100 {
            let expected = if x < 25 {
                (1, 1, 1)
            } else if x < 50 {
                (2, 2, 2)
            } else {
                (3, 3, 3)
            };
            assert_eq!(pixel(&bitmap, x, y), expected);
        }
    }
}

#[test]
fn sections_that_round_up_still_end_at_the_edge() {
    // 33.5 and 66.5 pixels are rounded to 34 and 67; the second is cut to 66.
    let flag = Flag {
        aspect: size("1"),
        sections: vec![
            section("0.335", vec![part("1", "1", [1, 1, 1])]),
            section("0.665", vec![part("1", "1", [2, 2, 2])]),
        ],
    };
    let bitmap = layout(&flag, 100, 100).unwrap();
    for x in 0..100 {
        assert_eq!(pixel(&bitmap, x, 0), if x < 34 { (1, 1, 1) } else { (2, 2, 2) });
    }
}

#[test]
fn exact_halves_are_rounded_up() {
    let flag = Flag { aspect: size("1"), sections: vec![section("0.145", vec![part("1", "0.145", [1, 1, 1])])] };
    let bitmap = layout(&flag, 100, 100).unwrap();
    assert_eq!(pixel(&bitmap, 14, 14), (1, 1, 1));
    assert_eq!(pixel(&bitmap, 15, 14), (0, 0, 0));
    assert_eq!(pixel(&bitmap, 14, 15), (0, 0, 0));
}

#[test]
fn thirds_leave_a_column_black() {
    let flag = Flag {
        aspect: size("1"),
        sections: vec![
            section("1/3", vec![part("1", "1", [1, 1, 1])]),
            section("1/3", vec![part("1", "1", [2, 2, 2])]),
            section("1/3", vec![part("1", "1", [3, 3, 3])]),
        ],
    };
    let bitmap = layout(&flag, 100, 100).unwrap();
    assert_eq!(pixel(&bitmap, 32, 0), (1, 1, 1));
    assert_eq!(pixel(&bitmap, 33, 0), (2, 2, 2));
    assert_eq!(pixel(&bitmap, 65, 0), (2, 2, 2));
    assert_eq!(pixel(&bitmap, 66, 0), (3, 3, 3));
    assert_eq!(pixel(&bitmap, 98, 0), (3, 3, 3));
    assert_eq!(pixel(&bitmap, 99, 0), (0, 0, 0));
}

#[test]
fn subsection_width_goes_by_nominal_section_width() {
    // The second section is cut down to 3 columns, but its subsection of
    // half its width is measured on the 8 columns that it asked for.
    let flag = Flag {
        aspect: size("1"),
        sections: vec![
            section("0.7", vec![part("1", "1", [1, 1, 1])]),
            section("0.8", vec![part("0.25", "1", [2, 2, 2])]),
        ],
    };
    let bitmap = layout(&flag, 10, 10).unwrap();
    assert_eq!(pixel(&bitmap, 6, 0), (1, 1, 1));
    assert_eq!(pixel(&bitmap, 7, 0), (2, 2, 2));
    assert_eq!(pixel(&bitmap, 8, 0), (2, 2, 2));
    assert_eq!(pixel(&bitmap, 9, 0), (0, 0, 0));
}

#[test]
fn wide_subsection_is_painted_over_by_next_section() {
    let flag = Flag {
        aspect: size("1"),
        sections: vec![
            section("50%", vec![part("2", "1", [1, 1, 1])]),
            section("25%", vec![part("1", "1", [2, 2, 2])]),
        ],
    };
    let bitmap = layout(&flag, 8, 8).unwrap();
    assert_eq!(pixel(&bitmap, 3, 0), (1, 1, 1));
    assert_eq!(pixel(&bitmap, 4, 0), (2, 2, 2));
    assert_eq!(pixel(&bitmap, 5, 0), (2, 2, 2));
    assert_eq!(pixel(&bitmap, 6, 0), (1, 1, 1));
    assert_eq!(pixel(&bitmap, 7, 0), (1, 1, 1));
}

#[test]
fn zero_sized_parts_paint_nothing() {
    let flag = Flag {
        aspect: size("1"),
        sections: vec![
            section("0", vec![part("1", "1", [1, 1, 1])]),
            section("1", vec![part("1", "0", [2, 2, 2]), part("0", "1", [3, 3, 3])]),
        ],
    };
    let bitmap = layout(&flag, 4, 4).unwrap();
    for y in 0..4 {
        for x in 0..4 {
            assert_eq!(pixel(&bitmap, x, y), (0, 0, 0));
        }
    }
}

#[test]
fn flag_without_sections_is_black() {
    let flag = Flag { aspect: size("1"), sections: vec![] };
    let bitmap = layout(&flag, 3, 2).unwrap();
    for y in 0..2 {
        for x in 0..3 {
            assert_eq!(pixel(&bitmap, x, y), (0, 0, 0));
        }
    }
}

#[test]
fn layout_twice_gives_same_picture() {
    let flag = Flag {
        aspect: size("5/3"),
        sections: vec![
            section("33.3%", vec![part("1", "1/3", [1, 1, 1]), part("0.5", "2/3", [2, 2, 2])]),
            section("66.7%", vec![part("1", "1", [3, 3, 3])]),
        ],
    };
    let first = layout(&flag, 37, 23).unwrap();
    let second = layout(&flag, 37, 23).unwrap();
    for y in 0..23 {
        for x in 0..37 {
            assert_eq!(first.get(x, y), second.get(x, y));
        }
    }
}

#[test]
fn layout_reports_first_unresolved_size() {
    let bad_aspect = Flag { aspect: size("wide"), sections: vec![section("x", vec![])] };
    assert_eq!(layout(&bad_aspect, 4, 4).err(), Some(FlagError::Aspect));

    let bad_section = Flag {
        aspect: size("1"),
        sections: vec![section("1", vec![part("1", "1", [0, 0, 0])]), section("-1", vec![part("?", "?", [0, 0, 0])])],
    };
    assert_eq!(layout(&bad_section, 4, 4).err(), Some(FlagError::SectionWidth { section: 1 }));

    let bad_height = Flag {
        aspect: size("1"),
        sections: vec![section("1", vec![part("1", "1", [0, 0, 0]), part("?", "1/0", [0, 0, 0])])],
    };
    assert_eq!(layout(&bad_height, 4, 4).err(), Some(FlagError::SubsectionHeight { section: 0, subsection: 1 }));

    let bad_width = Flag {
        aspect: size("1"),
        sections: vec![section("1", vec![]), section("1", vec![part("", "1", [0, 0, 0])])],
    };
    assert_eq!(layout(&bad_width, 4, 4).err(), Some(FlagError::SubsectionWidth { section: 1, subsection: 0 }));
}

#[test]
fn layout_reports_errors_past_the_edge() {
    let flag = Flag {
        aspect: size("1"),
        sections: vec![section("2", vec![part("1", "1", [0, 0, 0])]), section("nope", vec![])],
    };
    assert_eq!(layout(&flag, 4, 4).err(), Some(FlagError::SectionWidth { section: 1 }));
}

#[test]
fn huge_sizes_are_cut_to_the_flag() {
    let flag = Flag {
        aspect: size("1"),
        sections: vec![section(
            "99999999999999999999999999999999999999999999",
            vec![part("123456789012345678901234567890", "98765432109876543210987654321098765432109876543210", [7, 7, 7])],
        )],
    };
    let bitmap = layout(&flag, 5, 5).unwrap();
    for y in 0..5 {
        for x in 0..5 {
            assert_eq!(pixel(&bitmap, x, y), (7, 7, 7));
        }
    }
}

#[test]
fn long_decimals_are_exact() {
    // 0.1 + 0.2 + 0.7 of thirty pixels: 3, 6 and 21 columns.
    let flag = Flag {
        aspect: size("1.00000000000000000000000000000000000000"),
        sections: vec![
            section("0.10000000000000000000000000000000000000", vec![part("1", "1", [1, 1, 1])]),
            section("0.2", vec![part("1", "1", [2, 2, 2])]),
            section("70.000000000000000000000000000000%", vec![part("1", "1", [3, 3, 3])]),
        ],
    };
    let bitmap = layout(&flag, 30, 30).unwrap();
    assert_eq!(pixel(&bitmap, 2, 0), (1, 1, 1));
    assert_eq!(pixel(&bitmap, 3, 0), (2, 2, 2));
    assert_eq!(pixel(&bitmap, 8, 0), (2, 2, 2));
    assert_eq!(pixel(&bitmap, 9, 0), (3, 3, 3));
    assert_eq!(pixel(&bitmap, 29, 29), (3, 3, 3));
}

struct Recorder {
    size: (usize, usize),
    shown: Vec<Vec<(u8, u8, u8)>>,
    calls: usize,
}

impl Renderer for Recorder {
    fn render(&mut self, bitmap: &Bitmap) {
        self.calls += 1;
        self.shown = (0..bitmap.height())
            .map(|y| (0..bitmap.width()).map(|x| pixel(bitmap, x, y)).collect())
            .collect();
    }

    fn get_size(&self) -> (usize, usize) {
        self.size
    }
}

#[test]
fn render_flag_hands_picture_to_renderer() {
    let flag = Flag {
        aspect: size("2"),
        sections: vec![section("1/2", vec![part("1", "1", [10, 20, 30])])],
    };
    let mut recorder = Recorder { size: (4, 4), shown: vec![], calls: 0 };
    assert_eq!(render_flag(&mut recorder, &flag), Ok(()));
    assert_eq!(recorder.calls, 1);
    let black = (0, 0, 0);
    let blue = (10, 20, 30);
    assert_eq!(
        recorder.shown,
        vec![
            vec![black, black, black, black],
            vec![blue, blue, black, black],
            vec![blue, blue, black, black],
            vec![black, black, black, black],
        ]
    );
}

#[test]
fn render_flag_does_not_render_bad_flag() {
    let flag = Flag { aspect: size("1"), sections: vec![section("a/b", vec![])] };
    let mut recorder = Recorder { size: (4, 4), shown: vec![], calls: 0 };
    assert_eq!(render_flag(&mut recorder, &flag), Err(FlagError::SectionWidth { section: 0 }));
    assert_eq!(recorder.calls, 0);
}

#[test]
fn color_of_subsection_is_red_green_blue() {
    let flag = Flag { aspect: size("1"), sections: vec![section("1", vec![part("1", "1", [1, 2, 3])])] };
    let bitmap = layout(&flag, 1, 1).unwrap();
    assert_eq!(bitmap.get(0, 0), Some(Color::new(1, 2, 3)));
}

fn float_value(text: &str) -> f64 {
    if let Some(number) = text.strip_suffix('%') {
        number.parse::<f64>().unwrap() / 100.0
    } else if let Some((above, below)) = text.split_once('/') {
        above.parse::<f64>().unwrap() / below.parse::<f64>().unwrap()
    } else {
        text.parse::<f64>().unwrap()
    }
}

fn float_picture(flag: &Flag, width: usize, height: usize) -> Vec<Vec<(u8, u8, u8)>> {
    let aspect = width as f64 / height as f64;
    let flag_aspect = float_value(&flag.aspect.0);
    let (flag_width, flag_height, flag_x, flag_y);
    if aspect > flag_aspect {
        flag_width = (flag_aspect * height as f64).round() as usize;
        flag_height = height;
        flag_x = (width as f64 / 2.0 - flag_width as f64 / 2.0).round() as usize;
        flag_y = 0;
    } else if aspect < flag_aspect {
        flag_width = width;
        flag_height = (1.0 / flag_aspect * width as f64).round() as usize;
        flag_x = 0;
        flag_y = (height as f64 / 2.0 - flag_height as f64 / 2.0).round() as usize;
    } else {
        flag_width = width;
        flag_height = height;
        flag_x = 0;
        flag_y = 0;
    }
    let mut grid = vec![vec![(0u8, 0u8, 0u8); width]; height];
    let mut section_x = 0;
    for section in flag.sections.iter() {
        let share = float_value(&section.width.0);
        let mut section_width = (share * flag_width as f64).round() as usize;
        if section_x + section_width > flag_width {
            section_width = flag_width - section_x;
        }
        let mut section_y = 0;
        for part in section.subsections.iter() {
            let mut part_height = (float_value(&part.height.0) * flag_height as f64).round() as usize;
            if section_y + part_height > flag_height {
                part_height = flag_height - section_y;
            }
            let mut part_width = (float_value(&part.width.0) * share * flag_width as f64).round() as usize;
            if section_x + part_width > flag_width {
                part_width = flag_width - section_x;
            }
            for y in flag_y + section_y..flag_y + section_y + part_height {
                for x in flag_x + section_x..flag_x + section_x + part_width {
                    if x < width && y < height {
                        grid[y][x] = (part.color[0], part.color[1], part.color[2]);
                    }
                }
            }
            section_y += part_height;
        }
        section_x += section_width;
    }
    grid
}

#[test]
fn layout_agrees_with_floating_point() {
    let flags = [
        Flag {
            aspect: size("3/2"),
            sections: vec![
                section("1/3", vec![part("1", "1", [0, 85, 164])]),
                section("1/3", vec![part("1", "1", [255, 255, 255])]),
                section("1/3", vec![part("1", "1", [239, 65, 53])]),
            ],
        },
        Flag {
            aspect: size("5/3"),
            sections: vec![section(
                "100%",
                vec![part("1", "1/3", [0, 0, 0]), part("1", "1/3", [221, 0, 0]), part("1", "1/3", [255, 206, 0])],
            )],
        },
        Flag {
            aspect: size("2"),
            sections: vec![
                section("25%", vec![part("0.5", "50%", [1, 2, 3]), part("1.5", "0.75", [4, 5, 6])]),
                section("0.5", vec![part("1", "12.5%", [7, 8, 9]), part("2", "1", [10, 11, 12])]),
                section("3/4", vec![part("1/2", "1/4", [13, 14, 15])]),
            ],
        },
        Flag { aspect: size("0.5"), sections: vec![section("2", vec![part("1", "2", [9, 9, 9])])] },
    ];
    for flag in flags.iter() {
        for width in 1..24 {
            for height in 1..24 {
                let bitmap = layout(flag, width, height).unwrap();
                let expected = float_picture(flag, width, height);
                for y in 0..height {
                    for x in 0..width {
                        assert_eq!(pixel(&bitmap, x, y), expected[y][x], "{}x{} at {},{}", width, height, x, y);
                    }
                }
            }
        }
    }
}
