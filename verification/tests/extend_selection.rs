use ra_analysis::base::TextRange;
use ra_analysis::extend_selection::{extend_selection, macro_target, MacroExpansion};

fn r(start: u32, end: u32) -> TextRange {
    TextRange { start, end }
}

// The source reads
//
//     fn main() {
//         ctry!(foo(|x| x));
//     }
//
// with the argument of the macro at [46; 58), which the expansion holds at
// [19; 31). The selection is the second `x`, at [55; 56).
#[test]
fn extend_selection_inside_macros() {
    let expansion = MacroExpansion::new(vec![(r(46, 58), r(19, 31))]);
    let selection = r(55, 56);
    let inside = macro_target(Some(&expansion), selection);
    assert_eq!(inside, Some(r(28, 29)));
    // inside the expansion, the selection extends to the closure `|x| x`
    let extended_inside = Some(r(24, 29));
    let res = extend_selection(selection, Some(&expansion), extended_inside, Some(r(47, 57)));
    assert_eq!(format!("[{}; {})", res.start, res.end), "[51; 56)");
}

#[test]
fn extend_selection_falls_back_to_the_file() {
    let expansion = MacroExpansion::new(vec![(r(46, 58), r(19, 31))]);
    // the selection lies outside the macro call
    assert_eq!(macro_target(Some(&expansion), r(10, 12)), None);
    assert_eq!(extend_selection(r(10, 12), Some(&expansion), None, Some(r(8, 14))), r(8, 14));
    // what was extended inside leaves the mapped part of the expansion
    assert_eq!(extend_selection(r(55, 56), Some(&expansion), Some(r(0, 40)), Some(r(47, 57))), r(47, 57));
    // no macro, and nothing to extend to
    assert_eq!(macro_target(None, r(10, 12)), None);
    assert_eq!(extend_selection(r(10, 12), None, None, None), r(10, 12));
    assert_eq!(extend_selection(r(10, 12), None, Some(r(1, 2)), None), r(10, 12));
}

#[test]
fn ranges_map_through_the_first_covering_pair() {
    let expansion = MacroExpansion::new(vec![(r(10, 20), r(100, 110)), (r(0, 50), r(200, 250))]);
    assert_eq!(expansion.map_range_forward(r(12, 15)), Some(r(102, 105)));
    assert_eq!(expansion.map_range_forward(r(5, 15)), Some(r(205, 215)));
    assert_eq!(expansion.map_range_forward(r(40, 60)), None);
    assert_eq!(expansion.map_range_back(r(100, 110)), Some(r(10, 20)));
    assert_eq!(expansion.map_range_back(r(249, 250)), Some(r(49, 50)));
    assert_eq!(expansion.map_range_back(r(150, 160)), None);
    // a range that ends before it starts maps to nothing
    assert_eq!(expansion.map_range_forward(TextRange { start: 15, end: 12 }), None);
    // a range that would leave the 32 bits maps to nothing
    let far = MacroExpansion::new(vec![(r(0, 10), r(u32::MAX - 5, u32::MAX))]);
    assert_eq!(far.map_range_forward(r(0, 5)), Some(r(u32::MAX - 5, u32::MAX)));
    assert_eq!(far.map_range_forward(r(2, 8)), None);
}
