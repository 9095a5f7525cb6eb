use extractor::background::{AverageColors, Background, EdgeIterator};
use extractor::color::RGB;
use extractor::components::{clear_pixels, remove_small_components};
use extractor::error::ExtractError;
use extractor::flood::flood_fill;
use extractor::geometry::{Area, XY};
use extractor::markers::Markers;
use extractor::raster::{is_at_least_this_much_of_image, Image, Pixel};
use extractor::stickers::{assign_columns, stable_order, IdentifiedStickers};

const BACKGROUND: Pixel = Pixel { r: 200, g: 200, b: 100, a: 255 };
const WHITE: Pixel = Pixel { r: 255, g: 255, b: 255, a: 255 };

fn grid_mask(width: u32, height: u32, on: &[(u32, u32)]) -> Vec<bool> {
    let mut mask = vec![false; (width * height) as usize];
    for &(x, y) in on {
        mask[(y * width + x) as usize] = true;
    }
    mask
}

fn sorted(mut pixels: Vec<XY>) -> Vec<(u32, u32)> {
    let mut v: Vec<(u32, u32)> = pixels.drain(..).map(|p| (p.x, p.y)).collect();
    v.sort();
    v
}

fn paint(img: &mut Image, left: u32, top: u32, width: u32, height: u32, p: Pixel) {
    for x in left..left + width {
        for y in top..top + height {
            img.put_pixel(x, y, p);
        }
    }
}

#[test]
fn rgb_accessors() {
    let c = RGB::new(1, 2, 3);
    assert_eq!((c.r(), c.g(), c.b()), (1, 2, 3));
}

#[test]
fn marker_white_test() {
    assert!(RGB::new(255, 255, 255).is_marker_white());
    assert!(RGB::new(230, 230, 230).is_marker_white());
    assert!(!RGB::new(200, 200, 100).is_marker_white());
    assert!(!RGB::new(255, 0, 0).is_marker_white());
    assert!(!RGB::new(120, 120, 120).is_marker_white());
}

#[test]
fn area_derived_values() {
    let a = Area { top: 10, left: 20, width: 5, height: 4 };
    assert_eq!(a.right(), 24);
    assert_eq!(a.bottom(), 13);
    assert_eq!(a.center(), XY::new(22, 12));
    assert_eq!(a.area(), 20);
    assert!(a.contains(&XY::new(24, 13)));
    assert!(a.contains(&XY::new(20, 10)));
    assert!(!a.contains(&XY::new(25, 13)));
    assert!(!a.contains(&XY::new(20, 9)));
    assert_eq!((a.top(), a.left(), a.width(), a.height()), (10, 20, 5, 4));
}

#[test]
fn area_new_checks_size_and_bounds() {
    let img = Image::new(10, 8, BACKGROUND);
    assert_eq!(Area::new(0, 0, 0, 3, &img), Err(ExtractError::AreaEmpty));
    assert_eq!(Area::new(0, 0, 3, 0, &img), Err(ExtractError::AreaEmpty));
    assert_eq!(Area::new(0, 8, 3, 3, &img), Err(ExtractError::AreaOutOfBounds));
    assert_eq!(Area::new(6, 0, 3, 3, &img), Err(ExtractError::AreaOutOfBounds));
    assert_eq!(
        Area::new(5, 7, 3, 3, &img),
        Ok(Area { top: 5, left: 7, width: 3, height: 3 })
    );
}

#[test]
fn bounding_area_of_pixels() {
    assert_eq!(Area::new_from_pixels(&vec![]), None);
    let pixels = vec![XY::new(3, 4), XY::new(7, 2), XY::new(5, 9)];
    assert_eq!(
        Area::new_from_pixels(&pixels),
        Some(Area { top: 2, left: 3, width: 5, height: 8 })
    );
    assert_eq!(
        Area::new_from_pixels(&vec![XY::new(6, 6)]),
        Some(Area { top: 6, left: 6, width: 1, height: 1 })
    );
}

#[test]
fn flood_fill_follows_four_connectivity() {
    // a diagonal neighbour is not connected
    let mask = grid_mask(4, 3, &[(0, 0), (1, 0), (1, 1), (2, 2), (3, 0)]);
    let pixels = flood_fill(&mask, 4, 3, XY::new(0, 0));
    assert_eq!(sorted(pixels), vec![(0, 0), (1, 0), (1, 1)]);
    let none = flood_fill(&mask, 4, 3, XY::new(0, 1));
    assert!(none.is_empty());
}

#[test]
fn flood_fill_is_deterministic() {
    let mask = grid_mask(5, 5, &[(0, 0), (1, 0), (2, 0), (2, 1), (2, 2), (1, 2), (0, 2), (4, 4)]);
    let first = flood_fill(&mask, 5, 5, XY::new(2, 1));
    let second = flood_fill(&mask, 5, 5, XY::new(2, 1));
    assert_eq!(sorted(first), sorted(second));
}

#[test]
fn flood_fill_stays_in_mask_and_bounds() {
    let width = 7;
    let height = 6;
    let mut mask = vec![false; 42];
    for i in 0..42 {
        mask[i] = i % 3 != 0 || i % 7 == 2;
    }
    let pixels = flood_fill(&mask, width, height, XY::new(1, 0));
    assert!(!pixels.is_empty());
    for p in &pixels {
        assert!(p.x < width && p.y < height);
        assert!(mask[(p.y * width + p.x) as usize]);
    }
}

#[test]
fn block_fill_bounds_the_block() {
    let (width, height) = (20u32, 15u32);
    let mut on = vec![];
    for x in 4..11 {
        for y in 3..9 {
            on.push((x, y));
        }
    }
    let mask = grid_mask(width, height, &on);
    let pixels = flood_fill(&mask, width, height, XY::new(9, 5));
    assert_eq!(pixels.len(), 42);
    assert_eq!(
        Area::new_from_pixels(&pixels),
        Some(Area { top: 3, left: 4, width: 7, height: 6 })
    );
}

#[test]
fn edge_walk_points() {
    assert_eq!(
        EdgeIterator::new(XY::new(0, 0), XY::new(9, 9), 1).err(),
        Some(ExtractError::EdgeIteratorInvalid)
    );
    let mut it = EdgeIterator::new(XY::new(0, 10), XY::new(9, 28), 10).unwrap();
    for i in 0..10 {
        assert_eq!(it.next(), Some((i, XY::new(i as u32, 10 + 2 * i as u32))));
    }
    assert_eq!(it.next(), None);
    // rounds down, also when walking backwards
    let mut back = EdgeIterator::new(XY::new(10, 0), XY::new(0, 0), 4).unwrap();
    let xs: Vec<u32> = (0..4).map(|_| back.next().unwrap().1.x).collect();
    assert_eq!(xs, vec![10, 6, 3, 0]);
}

#[test]
fn running_midpoint_favours_later_pixels() {
    let mut img = Image::new(3, 1, Pixel { r: 0, g: 0, b: 0, a: 255 });
    img.put_pixel(2, 0, WHITE);
    let row = Area { top: 0, left: 0, width: 3, height: 1 };
    assert_eq!(row.average_color(&img), RGB::new(127, 127, 127));
    let mut img = Image::new(3, 1, Pixel { r: 0, g: 0, b: 0, a: 255 });
    img.put_pixel(0, 0, WHITE);
    assert_eq!(row.average_color(&img), RGB::new(63, 63, 63));
    let flat = Image::new(4, 4, BACKGROUND);
    let all = Area { top: 0, left: 0, width: 4, height: 4 };
    assert_eq!(all.average_color(&flat), RGB::new(200, 200, 100));
}

fn frame_markers() -> Markers {
    Markers::new(
        Area { top: 10, left: 10, width: 30, height: 30 },
        Area { top: 10, left: 960, width: 30, height: 30 },
        Area { top: 960, left: 10, width: 30, height: 30 },
        Area { top: 960, left: 960, width: 30, height: 30 },
    )
    .unwrap()
}

#[test]
fn background_samples_along_edges() {
    let img = Image::new(1000, 1000, BACKGROUND);
    let markers = frame_markers();
    let background = Background::analyse(&img, &markers).unwrap();
    let areas = background.areas();
    assert_eq!(areas.len(), 32);
    for (a, c) in areas {
        assert_eq!(*c, RGB::new(200, 200, 100));
        assert_eq!((a.width, a.height), (30, 30));
    }
    // first interior point of the top edge: x = (8 * 25 + 975) / 9 = 130
    assert!(areas.iter().any(|(a, _)| *a == Area { top: 10, left: 115, width: 30, height: 30 }));
}

#[test]
fn background_window_outside_image_is_refused() {
    let img = Image::new(1000, 1000, BACKGROUND);
    let markers = Markers::new(
        Area { top: 0, left: 0, width: 120, height: 120 },
        Area { top: 0, left: 990, width: 10, height: 10 },
        Area { top: 990, left: 0, width: 10, height: 10 },
        Area { top: 990, left: 990, width: 10, height: 10 },
    )
    .unwrap();
    assert_eq!(
        Background::analyse(&img, &markers).err(),
        Some(ExtractError::AreaOutOfBounds)
    );
}

#[test]
fn middle_of_top_edge_is_between_top_centres() {
    let markers = frame_markers();
    assert_eq!(markers.middle_of_top_edge(), XY::new(500, 25));
    let all = markers.markers();
    assert_eq!(all.len(), 4);
    assert_eq!(*all[3], Area { top: 960, left: 960, width: 30, height: 30 });
}

#[test]
fn cleanup_threshold_is_one_fiftieth() {
    // 10 x 10 image: a component needs 2 pixels to stay
    let mut img = Image::new(10, 10, Pixel::transparent());
    img.put_pixel(0, 0, WHITE);
    img.put_pixel(5, 5, WHITE);
    img.put_pixel(5, 6, WHITE);
    img.put_pixel(9, 9, Pixel { r: 1, g: 2, b: 3, a: 0 });
    remove_small_components(&mut img);
    assert_eq!(img.get_pixel(0, 0), Pixel::transparent());
    assert_eq!(img.get_pixel(5, 5), WHITE);
    assert_eq!(img.get_pixel(5, 6), WHITE);
    assert_eq!(img.get_pixel(9, 9), Pixel { r: 1, g: 2, b: 3, a: 0 });
}

#[test]
fn clearing_pixels_makes_them_transparent() {
    let mut img = Image::new(3, 3, WHITE);
    clear_pixels(&mut img, &vec![XY::new(1, 1), XY::new(2, 0)]);
    assert_eq!(img.get_pixel(1, 1), Pixel::transparent());
    assert_eq!(img.get_pixel(2, 0), Pixel::transparent());
    assert_eq!(img.get_pixel(0, 0), WHITE);
}

#[test]
fn image_fraction_threshold() {
    let img = Image::new(100, 100, WHITE);
    assert!(is_at_least_this_much_of_image(1, &img, 10_000));
    assert!(!is_at_least_this_much_of_image(199, &img, 50));
    assert!(is_at_least_this_much_of_image(200, &img, 50));
}

#[test]
fn stable_order_keeps_ties_in_input_order() {
    let keys = vec![(3, 0), (1, 5), (3, 0), (1, 2), (0, 9)];
    assert_eq!(stable_order(&keys), vec![4, 3, 1, 0, 2]);
}

#[test]
fn columns_snap_within_a_fifth_of_the_width() {
    // width 1000: centres closer than 200 share a column
    let xs = vec![100, 350, 520, 560, 800, 810];
    assert_eq!(assign_columns(&xs, 1000), vec![0, 1, 1, 1, 2, 2]);
}

#[test]
fn stickers_in_a_narrow_band_share_one_column() {
    let areas = vec![
        Area { top: 700, left: 410, width: 60, height: 50 },
        Area { top: 100, left: 400, width: 80, height: 50 },
        Area { top: 400, left: 500, width: 40, height: 50 },
    ];
    let stickers = IdentifiedStickers::from_areas(&areas, 1000);
    let s = stickers.stickers();
    assert!(s.iter().all(|s| s.column == 0));
    let rows: Vec<(usize, u32)> = s.iter().map(|s| (s.row, s.area.top)).collect();
    assert_eq!(rows, vec![(0, 100), (1, 400), (2, 700)]);
}

#[test]
fn stickers_around_a_common_centre_may_split() {
    // both centres lie within a fifth of the width of x = 500, yet 380 apart
    let areas = vec![
        Area { top: 100, left: 300, width: 20, height: 20 },
        Area { top: 100, left: 680, width: 20, height: 20 },
    ];
    let stickers = IdentifiedStickers::from_areas(&areas, 1000);
    let columns: Vec<usize> = stickers.stickers().iter().map(|s| s.column).collect();
    assert_eq!(columns, vec![0, 1]);
}

#[test]
fn background_removal_spares_other_regions() {
    let mut img = Image::new(6, 4, BACKGROUND);
    paint(&mut img, 2, 0, 1, 4, WHITE);
    let background: Vec<bool> = img.pixels.iter().map(|p| *p == BACKGROUND).collect();
    extractor::components::remove_background(&mut img, XY::new(0, 0), &background);
    assert!(img.get_pixel(1, 3).is_transparent());
    assert_eq!(img.get_pixel(2, 1), WHITE);
    assert_eq!(img.get_pixel(4, 2), BACKGROUND);
}

#[test]
fn block_averages() {
    assert_eq!(
        AverageColors::new(&Image::new(4, 4, WHITE), 0).err(),
        Some(ExtractError::AreaEmpty)
    );
    let mut img = Image::new(4, 4, BACKGROUND);
    paint(&mut img, 2, 0, 2, 2, WHITE);
    let grid = AverageColors::new(&img, 2).unwrap();
    assert_eq!(grid.averaged_area_size(), 2);
    assert_eq!(*grid.average_color(&XY::new(3, 1)), RGB::new(255, 255, 255));
    assert_eq!(*grid.average_color(&XY::new(1, 3)), RGB::new(200, 200, 100));
    assert_eq!(grid.average_colors.len(), 2);
    // the last block is clipped at the image edge, its last column included
    let mut img = Image::new(5, 4, BACKGROUND);
    paint(&mut img, 4, 0, 1, 4, WHITE);
    let grid = AverageColors::new(&img, 2).unwrap();
    assert_eq!(grid.average_colors.len(), 3);
    assert!(grid.average_colors.iter().all(|c| c.len() == 2));
    assert_eq!(*grid.average_color(&XY::new(4, 3)), RGB::new(255, 255, 255));
    assert_eq!(*grid.average_color(&XY::new(3, 3)), RGB::new(200, 200, 100));
    let grid = AverageColors::new(&Image::new(9, 4, WHITE), 4).unwrap();
    assert_eq!(grid.average_colors.len(), 3);
    assert_eq!(grid.average_colors[2].len(), 1);
}

#[test]
fn painting_an_area_covers_its_right_and_bottom_edges() {
    let mut img = Image::new(5, 5, BACKGROUND);
    let a = Area { top: 1, left: 1, width: 3, height: 3 };
    a.color(&mut img, &RGB::new(255, 0, 0));
    let red = Pixel { r: 255, g: 0, b: 0, a: 255 };
    assert_eq!(img.get_pixel(1, 1), red);
    assert_eq!(img.get_pixel(2, 2), red);
    assert_eq!(img.get_pixel(3, 2), red);
    assert_eq!(img.get_pixel(2, 3), red);
    assert_eq!(img.get_pixel(3, 3), red);
    assert_eq!(img.get_pixel(4, 3), BACKGROUND);
    assert_eq!(img.get_pixel(3, 4), BACKGROUND);
    assert_eq!(img.get_pixel(0, 0), BACKGROUND);
}

#[test]
fn painting_a_single_pixel_area() {
    let mut img = Image::new(3, 3, Pixel::transparent());
    let a = Area { top: 2, left: 2, width: 1, height: 1 };
    a.color(&mut img, &RGB::new(1, 2, 3));
    assert_eq!(img.get_pixel(2, 2), Pixel { r: 1, g: 2, b: 3, a: 255 });
    assert_eq!(img.get_pixel(1, 2), Pixel::transparent());
}
