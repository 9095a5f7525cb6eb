use extractor::components::{remove_background, remove_small_components};
use extractor::error::{Corner, ExtractError};
use extractor::geometry::Area;
use extractor::markers::Markers;
use extractor::raster::{Image, Pixel};
use extractor::stickers::IdentifiedStickers;

const BACKGROUND: Pixel = Pixel { r: 200, g: 200, b: 100, a: 255 };
const WHITE: Pixel = Pixel { r: 255, g: 255, b: 255, a: 255 };
const RED: Pixel = Pixel { r: 255, g: 0, b: 0, a: 255 };

fn paint(img: &mut Image, left: u32, top: u32, width: u32, height: u32, p: Pixel) {
    for x in left..left + width {
        for y in top..top + height {
            img.put_pixel(x, y, p);
        }
    }
}

fn sheet(marker: u32, top_right: bool) -> Image {
    let mut img = Image::new(1000, 1000, BACKGROUND);
    paint(&mut img, 10, 10, marker, marker, WHITE);
    if top_right {
        paint(&mut img, 960, 10, marker, marker, WHITE);
    }
    paint(&mut img, 10, 960, marker, marker, WHITE);
    paint(&mut img, 960, 960, marker, marker, WHITE);
    img
}

fn area(left: u32, top: u32, width: u32, height: u32) -> Area {
    Area { top, left, width, height }
}

#[test]
fn plain_sheet_yields_one_sticker() {
    let mut img = sheet(30, true);
    paint(&mut img, 400, 400, 200, 200, RED);

    let markers = Markers::find(&img).unwrap();
    assert_eq!(*markers.top_left(), area(10, 10, 30, 30));
    assert_eq!(*markers.top_right(), area(960, 10, 30, 30));
    assert_eq!(*markers.bottom_left(), area(10, 960, 30, 30));
    assert_eq!(*markers.bottom_right(), area(960, 960, 30, 30));

    let background: Vec<bool> = img.pixels.iter().map(|p| *p == BACKGROUND).collect();
    let seed = markers.middle_of_top_edge();
    remove_background(&mut img, seed, &background);
    assert!(img.get_pixel(0, 0).is_transparent());
    assert!(!img.get_pixel(500, 500).is_transparent());
    assert!(!img.get_pixel(20, 20).is_transparent());

    remove_small_components(&mut img);
    assert!(img.get_pixel(20, 20).is_transparent());

    let stickers = IdentifiedStickers::new(&img);
    let stickers = stickers.stickers();
    assert_eq!(stickers.len(), 1);
    assert_eq!(stickers[0].area, area(400, 400, 200, 200));
    assert_eq!(stickers[0].column, 0);
    assert_eq!(stickers[0].row, 0);
}

#[test]
fn two_column_grid() {
    let mut img = Image::new(1000, 1000, Pixel::transparent());
    for (left, top) in [(300, 200), (300, 500), (700, 200), (700, 500)] {
        paint(&mut img, left, top, 150, 150, RED);
    }
    let stickers = IdentifiedStickers::new(&img);
    let stickers = stickers.stickers();
    let columns: Vec<usize> = stickers.iter().map(|s| s.column).collect();
    let rows: Vec<usize> = stickers.iter().map(|s| s.row).collect();
    assert_eq!(columns, vec![0, 0, 1, 1]);
    assert_eq!(rows, vec![0, 1, 0, 1]);
    assert_eq!(stickers[0].area, area(300, 200, 150, 150));
    assert_eq!(stickers[1].area, area(300, 500, 150, 150));
    assert_eq!(stickers[2].area, area(700, 200, 150, 150));
    assert_eq!(stickers[3].area, area(700, 500, 150, 150));
}

#[test]
fn missing_marker_fails_top_right() {
    let mut img = sheet(30, false);
    paint(&mut img, 400, 400, 200, 200, RED);
    assert_eq!(
        Markers::find(&img).err(),
        Some(ExtractError::MarkerNotFound(Corner::TopRight))
    );
}

#[test]
fn tiny_markers_are_not_found() {
    let img = sheet(3, true);
    assert_eq!(
        Markers::find(&img).err(),
        Some(ExtractError::MarkerNotFound(Corner::TopLeft))
    );
    for corner in [
        Corner::TopLeft,
        Corner::TopRight,
        Corner::BottomLeft,
        Corner::BottomRight,
    ] {
        assert_eq!(
            Markers::find_marker(&img, corner).err(),
            Some(ExtractError::MarkerNotFound(corner))
        );
    }
}

#[test]
fn swapped_markers_fail_geometry() {
    let swapped = Markers::new(
        area(960, 10, 30, 30),
        area(10, 10, 30, 30),
        area(10, 960, 30, 30),
        area(960, 960, 30, 30),
    );
    assert_eq!(swapped.err(), Some(ExtractError::MarkerGeometry));
    let upside_down = Markers::new(
        area(10, 960, 30, 30),
        area(960, 960, 30, 30),
        area(10, 10, 30, 30),
        area(960, 10, 30, 30),
    );
    assert_eq!(upside_down.err(), Some(ExtractError::MarkerGeometry));
}

#[test]
fn located_top_left_right_of_top_right_fails_geometry() {
    let mut img = Image::new(1000, 1000, BACKGROUND);
    // the top-left blob stretches far to the right
    paint(&mut img, 290, 0, 709, 3, WHITE);
    // the top-right blob reaches far to the left between the scan rows
    paint(&mut img, 995, 10, 5, 8, WHITE);
    paint(&mut img, 1, 15, 999, 3, WHITE);
    paint(&mut img, 10, 960, 30, 30, WHITE);
    paint(&mut img, 960, 960, 30, 30, WHITE);
    assert_eq!(
        Markers::find_marker(&img, Corner::TopLeft),
        Ok(area(290, 0, 709, 3))
    );
    assert_eq!(
        Markers::find_marker(&img, Corner::TopRight),
        Ok(area(1, 10, 999, 8))
    );
    assert_eq!(Markers::find(&img).err(), Some(ExtractError::MarkerGeometry));
}

#[test]
fn small_image_is_a_configuration_error() {
    let img = Image::new(60, 500, BACKGROUND);
    assert_eq!(
        Markers::find(&img).err(),
        Some(ExtractError::ConfigurationInvalid)
    );
    let img = Image::new(500, 60, BACKGROUND);
    assert_eq!(
        Markers::find(&img).err(),
        Some(ExtractError::ConfigurationInvalid)
    );
}
