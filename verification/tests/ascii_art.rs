//! Banners, boxes, shapes, mirrors and tables.

use rach::ascii::{banner, border_glyphs, box_around, diamond, glyph_for, mirror, pyramid, table};

#[test]
fn banner_puts_glyphs_side_by_side() {
    let rows = banner("hi");
    assert_eq!(rows.len(), 5);
    assert_eq!(rows[0], "██   ██ ██");
    assert_eq!(rows[2], "███████ ██");
    assert_eq!(glyph_for('a'), glyph_for('A'));
    assert_eq!(glyph_for('~'), ["?? ", "?? ", "?? ", "?? ", "?? "]);
}

#[test]
fn borders_and_boxes() {
    assert_eq!(border_glyphs("ascii"), ["+", "-", "+", "|", "|", "+", "-", "+"]);
    assert_eq!(border_glyphs("nope"), ["┌", "─", "┐", "│", "│", "└", "─", "┘"]);
    assert_eq!(box_around("hi\nthere", None, "ascii"), vec!["+-------+", "| hi    |", "| there |", "+-------+"]);
    assert_eq!(box_around("x", Some("T"), "ascii"), vec!["+- T --+", "| x     |", "+-------+"]);
}

#[test]
fn pyramids_diamonds_mirrors() {
    assert_eq!(pyramid("ab"), vec!["  a", " aaa", "aaaaa"]);
    assert_eq!(pyramid("").len(), 5);
    assert_eq!(diamond("x"), vec!["  x", " xxx", "xxxxx", " xxx", "  x"]);
    assert_eq!(mirror("abc"), "abc | cba");
}

#[test]
fn tables_size_columns_to_their_widest_cell() {
    let t = table("a, bb", "1,2;333,4,5").unwrap();
    assert_eq!(
        t,
        vec![
            "+-----+----+---+",
            "| a   | bb |",
            "+-----+----+---+",
            "| 1   | 2  |",
            "| 333 | 4  | 5 |",
            "+-----+----+---+",
        ]
    );
    assert_eq!(table("x", "").unwrap(), vec!["+---+", "| x |", "+---+"]);
    assert_eq!(table("", "1").unwrap_err(), "ascii_table requires headers=\"a,b,c\"");
}
