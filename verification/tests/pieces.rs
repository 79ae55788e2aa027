use memfrob::color::{parse_color, resolve_color, ColorError, Rgb8};
use memfrob::pieces::{all_pieces, parse_piece, tile_step, PieceError, Tile};
use memfrob::texture::row_points;

fn rgb(red: u8, green: u8, blue: u8) -> Rgb8 {
    Rgb8 { red, green, blue }
}

#[test]
fn default_colors_by_name() {
    assert_eq!(parse_color("darkslategray"), Ok(rgb(47, 79, 79)));
    assert_eq!(parse_color("lightblue"), Ok(rgb(173, 216, 230)));
}

#[test]
fn hex_colors() {
    assert_eq!(parse_color("#fff"), Ok(rgb(255, 255, 255)));
    assert_eq!(parse_color("abc"), Ok(rgb(0xaa, 0xbb, 0xcc)));
    assert_eq!(parse_color("#1A2b3C"), Ok(rgb(0x1a, 0x2b, 0x3c)));
    assert_eq!(parse_color("#+f+f+f"), Ok(rgb(15, 15, 15)));
}

#[test]
fn invalid_colors() {
    assert_eq!(parse_color("nope"), Err(ColorError::HexFormat));
    assert_eq!(parse_color("#12345"), Err(ColorError::HexFormat));
    assert_eq!(parse_color("##fff"), Err(ColorError::HexFormat));
    assert_eq!(parse_color("é"), Err(ColorError::HexFormat));
    assert_eq!(parse_color("+f+"), Err(ColorError::InvalidDigit));
    assert_eq!(parse_color("#ggg"), Err(ColorError::InvalidDigit));
    assert_eq!(parse_color("ééé"), Err(ColorError::InvalidDigit));
    assert_eq!(parse_color("aaaaé"), Err(ColorError::InvalidDigit));
    assert_eq!(parse_color("€"), Err(ColorError::InvalidDigit));
    assert_eq!(parse_color("éa"), Err(ColorError::InvalidDigit));
}

#[test]
fn colors_agree_with_palette() {
    for s in ["red", "fff", "#fff", "#ABCDEF", "+1+2+3", "nope", "#12345", "##fff", "é", "+f+", "ééé", "aaaaé", "-1-2-3", ""] {
        let expected = palette::named::from_str(s)
            .ok_or(())
            .or_else(|_| s.parse::<palette::Srgb<u8>>())
            .map(|c| rgb(c.red, c.green, c.blue))
            .map_err(|e| match e {
                palette::rgb::FromHexError::HexFormatError(_) => ColorError::HexFormat,
                palette::rgb::FromHexError::ParseIntError(_) => ColorError::InvalidDigit,
                palette::rgb::FromHexError::RgbaHexFormatError(_) => unreachable!(),
            });
        assert_eq!(parse_color(s), expected, "input {:?}", s);
    }
}

#[test]
fn name_lookup_comes_first() {
    assert_eq!(resolve_color(Some(rgb(1, 2, 3)), "fff"), Ok(rgb(1, 2, 3)));
    assert_eq!(resolve_color(None, "fff"), Ok(rgb(255, 255, 255)));
    assert_eq!(resolve_color(None, "red"), Err(ColorError::InvalidDigit));
    assert_eq!(resolve_color(None, "blue"), Err(ColorError::HexFormat));
}

#[test]
fn piece_catalog() {
    let titles: Vec<&str> = all_pieces().iter().map(|p| p.title).collect();
    assert_eq!(titles, vec!["koch", "noise", "squares", "square-spirals"]);
    assert_eq!(parse_piece("koch"), Ok(0));
    assert_eq!(parse_piece("square-spirals"), Ok(3));
    assert_eq!(parse_piece("Koch"), Err(PieceError::UnknownPiece));
    assert_eq!(parse_piece(""), Err(PieceError::UnknownPiece));
}

#[test]
fn square_spiral_tiles() {
    assert_eq!(tile_step(12345, 1), Tile::Subdivide(2));
    assert_eq!(tile_step(8, 4), Tile::Subdivide(8));
    assert_eq!(tile_step(3, 2), Tile::Spiral(30));
    assert_eq!(tile_step(33, 32), Tile::Spiral(0));
    assert_eq!(tile_step(0, 0), Tile::Subdivide(0));
    assert_eq!(tile_step(7, 0), Tile::Spiral(32));
}

#[test]
fn pixel_rows_are_shaded_bottom_up() {
    assert_eq!(row_points(3, 0, 2), vec![(0, 2), (1, 2), (2, 2)]);
    assert_eq!(row_points(2, 1, 2), vec![(0, 1), (1, 1)]);
    assert_eq!(row_points(0, 0, 1), vec![]);
}

#[test]
fn piece_and_color_messages() {
    assert_eq!(parse_piece("x").unwrap_err().message(), "Unknown piece");
    for s in ["nope", "ggg"] {
        let expected = s.parse::<palette::Srgb<u8>>().unwrap_err().to_string();
        assert_eq!(parse_color(s).unwrap_err().message(), expected);
    }
}
