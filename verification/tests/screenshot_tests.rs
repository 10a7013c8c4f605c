use dustbunny::screenshot::{
    apply_sgr, cells_to_svg, escape_xml, hex_color, map_rect, parse_ansi, screenshot_sidebar_width, Rgb, Style,
    SvgRect,
};

#[test]
fn hex_color_writes_two_lower_case_digits_each() {
    assert_eq!(hex_color(Rgb { r: 40, g: 43, b: 48 }), "#282b30");
    assert_eq!(hex_color(Rgb { r: 255, g: 0, b: 10 }), "#ff000a");
}

#[test]
fn escape_xml_replaces_markup_characters() {
    assert_eq!(escape_xml("a<b>&\"c\""), "a&lt;b&gt;&amp;&quot;c&quot;");
    assert_eq!(escape_xml("&amp;"), "&amp;amp;");
    assert_eq!(escape_xml("plain"), "plain");
}

#[test]
fn picture_sidebar_width_by_screen_width() {
    assert_eq!(screenshot_sidebar_width(100), 0);
    assert_eq!(screenshot_sidebar_width(123), 0);
    assert_eq!(screenshot_sidebar_width(124), 34);
    assert_eq!(screenshot_sidebar_width(140), 34);
    assert_eq!(screenshot_sidebar_width(144), 44);
    assert_eq!(screenshot_sidebar_width(146), 45);
    assert_eq!(screenshot_sidebar_width(200), 46);
}

#[test]
fn map_rect_leaves_room_for_header_status_and_sidebar() {
    assert_eq!(map_rect(), SvgRect { x: 0, y: 4, width: 106, height: 36 });
    let map = map_rect();
    assert!(map.contains(0, 4));
    assert!(map.contains(105, 39));
    assert!(!map.contains(106, 4));
    assert!(!map.contains(0, 40));
    assert!(!map.contains(0, 3));
    let edge = SvgRect { x: 65530, y: 0, width: 100, height: 1 };
    assert!(edge.contains(65534, 0));
    assert!(!edge.contains(65535, 0));
}

#[test]
fn apply_sgr_handles_resets_attributes_and_true_colour() {
    let mut style = Style::default();
    apply_sgr(&mut style, "1;38;2;1;2;3");
    assert!(style.bold);
    assert_eq!(style.fg, Rgb { r: 1, g: 2, b: 3 });
    apply_sgr(&mut style, "2;48;2;300;0;7");
    assert!(style.dim);
    assert_eq!(style.bg, Rgb { r: 44, g: 0, b: 7 });
    apply_sgr(&mut style, "22");
    assert!(!style.bold && !style.dim);
    apply_sgr(&mut style, "38;5;244");
    assert_eq!(style.fg, Rgb { r: 1, g: 2, b: 3 });
    apply_sgr(&mut style, "");
    assert_eq!(style, Style::default());
    apply_sgr(&mut style, "+1;x;;99999");
    assert!(style.bold);
    apply_sgr(&mut style, "1;0");
    assert_eq!(style, Style::default());
    apply_sgr(&mut style, "38;2;9");
    assert_eq!(style, Style::default());
}

#[test]
fn parse_ansi_places_characters_and_styles() {
    let cells = parse_ansi("ab\r\n\x1b[1mc\x1b[0md\x1bXe");
    assert_eq!(cells.len(), 42);
    assert_eq!(cells[0].len(), 140);
    assert_eq!(cells[0][0].ch, 'a');
    assert_eq!(cells[0][1].ch, 'b');
    assert_eq!(cells[0][2].ch, ' ');
    assert_eq!(cells[1][0].ch, 'c');
    assert!(cells[1][0].style.bold);
    assert_eq!(cells[1][1].ch, 'd');
    assert!(!cells[1][1].style.bold);
    assert_eq!(cells[1][2].ch, 'e');
    assert_eq!(cells[2][0].ch, ' ');
}

#[test]
fn parse_ansi_stops_after_the_last_row() {
    let mut input = String::new();
    for _ in 0..42 {
        input.push_str("x\n");
    }
    input.push_str("overflow");
    let cells = parse_ansi(&input);
    assert_eq!(cells[41][0].ch, 'x');
    assert_eq!(cells[41][1].ch, ' ');
}

#[test]
fn cells_to_svg_draws_backgrounds_map_and_texts() {
    let cells = parse_ansi("hi there\n\x1b[48;2;1;2;3m \x1b[0m");
    let svg = cells_to_svg(&cells, "<g id=\"map\"/>\n");
    assert!(svg.starts_with(
        "<svg xmlns=\"http://www.w3.org/2000/svg\" width=\"1260\" height=\"756\" viewBox=\"0 0 1260 756\">\n<rect width=\"100%\" height=\"100%\" fill=\"#282b30\"/>\n<style>\n"
    ));
    assert!(svg.ends_with("</svg>\n"));
    assert!(svg.contains("<rect x=\"0\" y=\"0\" width=\"1260\" height=\"18\" fill=\"#282b30\"/>\n"));
    assert!(svg.contains("<rect x=\"0\" y=\"18\" width=\"9\" height=\"18\" fill=\"#010203\"/>\n"));
    assert!(svg.contains("<rect x=\"9\" y=\"18\" width=\"1251\" height=\"18\" fill=\"#282b30\"/>\n"));
    assert!(svg.contains("<rect x=\"0\" y=\"72\" width=\"954\" height=\"648\" fill=\"#282b30\"/>\n<g id=\"map\"/>\n"));
    assert!(svg.contains("<text x=\"0\" y=\"2\" fill=\"#e6e8ec\">hi</text>\n"));
    assert!(svg.contains("<text x=\"27\" y=\"2\" fill=\"#e6e8ec\">there</text>\n"));
}

#[test]
fn cells_to_svg_skips_text_inside_the_map() {
    let cells = parse_ansi("\n\n\n\n\x1b[1mhidden\x1b[0m");
    let svg = cells_to_svg(&cells, "");
    assert!(!svg.contains("hidden"));
    let cells = parse_ansi("\x1b[1;2m<b>\x1b[0m");
    let svg = cells_to_svg(&cells, "");
    assert!(svg.contains("<text x=\"0\" y=\"2\" fill=\"#e6e8ec\" font-weight=\"700\" opacity=\"0.65\">&lt;b&gt;</text>\n"));
}
