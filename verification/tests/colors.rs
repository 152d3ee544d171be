use libraries_rust::color::{all_colors, Color};

#[test]
fn color_listing_is_red_green_blue() {
    let cs = all_colors();
    assert_eq!(cs, vec![Color::Red, Color::Green, Color::Blue]);
    assert_eq!(cs.len(), 3);
}

#[test]
fn color_listing_has_no_duplicates() {
    let cs = all_colors();
    for i in 0..cs.len() {
        for j in 0..cs.len() {
            if i != j {
                assert_ne!(cs[i], cs[j]);
            }
        }
    }
}

#[test]
fn color_listing_is_restartable() {
    assert_eq!(all_colors(), all_colors());
}
