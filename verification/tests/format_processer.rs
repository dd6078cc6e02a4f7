use just_enough_vcs::string_proc::format_processer::FormatProcesser;

#[test]
fn test_processer() {
    let test_cases = vec![
        ("brew_coffee", "brewCoffee"),
        ("brew, coffee", "brewCoffee"),
        ("brew-coffee", "brewCoffee"),
        ("Brew.Coffee", "brewCoffee"),
        ("bRewCofFee", "bRewCofFee"),
        ("brewCoffee", "brewCoffee"),
        ("b&rewCoffee", "brewCoffee"),
        ("BrewCoffee", "brewCoffee"),
        ("brew.coffee", "brewCoffee"),
        ("Brew_Coffee", "brewCoffee"),
        ("BREW COFFEE", "brewCoffee"),
    ];

    for (input, expected) in test_cases {
        let processor = FormatProcesser::from(input);
        assert_eq!(
            processor.to_camel_case(),
            expected,
            "Failed for input: '{}'",
            input
        );
    }
}

#[test]
fn test_conversions() {
    let processor = FormatProcesser::from("brewCoffee");

    assert_eq!(processor.to_upper_case(), "BREW COFFEE");
    assert_eq!(processor.to_lower_case(), "brew coffee");
    assert_eq!(processor.to_title_case(), "Brew Coffee");
    assert_eq!(processor.to_dot_case(), "brew.coffee");
    assert_eq!(processor.to_snake_case(), "brew_coffee");
    assert_eq!(processor.to_kebab_case(), "brew-coffee");
    assert_eq!(processor.to_pascal_case(), "BrewCoffee");
    assert_eq!(processor.to_camel_case(), "brewCoffee");
}

#[test]
fn processer_doc_examples() {
    assert_eq!(FormatProcesser::from("brew_coffee").to_camel_case(), "brewCoffee");
    assert_eq!(FormatProcesser::from("brew_coffee").to_pascal_case(), "BrewCoffee");
    assert_eq!(FormatProcesser::from("brew_coffee").to_kebab_case(), "brew-coffee");
    assert_eq!(FormatProcesser::from("brewCoffee").to_snake_case(), "brew_coffee");
    assert_eq!(FormatProcesser::from("brew_coffee").to_dot_case(), "brew.coffee");
    assert_eq!(FormatProcesser::from("brew_coffee").to_title_case(), "Brew Coffee");
    assert_eq!(FormatProcesser::from("BREW COFFEE").to_lower_case(), "brew coffee");
    assert_eq!(FormatProcesser::from("brew coffee").to_upper_case(), "BREW COFFEE");
}

#[test]
fn processer_edge_cases() {
    // Nothing but separators and dropped characters gives no words.
    let empty = FormatProcesser::from("__ -- &&");
    assert_eq!(empty.to_camel_case(), "");
    assert_eq!(empty.to_title_case(), "");
    assert_eq!(empty.to_upper_case(), "");
    // Digits stay, and a word may start with one.
    let digits = FormatProcesser::from(String::from("frame_2x-scale"));
    assert_eq!(digits.to_pascal_case(), "Frame2xScale");
    assert_eq!(digits.to_snake_case(), "frame_2x_scale");
    // Non-ASCII letters are dropped.
    assert_eq!(FormatProcesser::from("café_au_lait").to_kebab_case(), "caf-au-lait");
}
