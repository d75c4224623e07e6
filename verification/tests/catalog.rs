use code_map::catalog::{message, parse_message, Catalog};
use code_map::i18n::Language;

const EN: &str = "# captions\nfit = Fit\nshow-ignored =  Show ignored  \n\nhelp-1 = Scroll: zoom\n";
const ZH: &str = "fit = 适应窗口\nnot a message\n9bad = x\n= no id\n";

#[test]
fn reads_one_message_per_line() {
    let en = Catalog::parse(EN);
    let pairs: Vec<(&str, &str)> = en.messages.iter().map(|(a, b)| (a.as_str(), b.as_str())).collect();
    assert_eq!(pairs, vec![("fit", "Fit"), ("show-ignored", "Show ignored"), ("help-1", "Scroll: zoom")]);
    // lines that are not messages add nothing
    let zh = Catalog::parse(ZH);
    assert_eq!(zh.messages.len(), 1);
    assert_eq!(parse_message("  a-b_c = x = y "), Some(("a-b_c".to_string(), "x = y".to_string())));
    assert_eq!(parse_message("# fit = Fit"), None);
    assert_eq!(parse_message("fit Fit"), None);
    assert_eq!(parse_message("two words = x"), None);
    assert!(Catalog::new().messages.is_empty());
}

#[test]
fn missing_translations_fall_back_to_english_then_to_the_id() {
    let en = Catalog::parse(EN);
    let zh = Catalog::parse(ZH);
    assert_eq!(message(Language::SimplifiedChinese, "fit", &en, &zh), "适应窗口");
    assert_eq!(message(Language::English, "fit", &en, &zh), "Fit");
    // not in the Chinese catalog: the English text
    assert_eq!(message(Language::SimplifiedChinese, "show-ignored", &en, &zh), "Show ignored");
    // in neither: the id itself
    assert_eq!(message(Language::SimplifiedChinese, "inspector", &en, &zh), "inspector");
    // no catalogs at all
    let none = Catalog::new();
    assert_eq!(message(Language::English, "fit", &none, &none), "fit");
    // the first message with an id wins
    let twice = Catalog::parse("fit = A\nfit = B\n");
    assert_eq!(twice.get("fit"), Some("A".to_string()));
    assert_eq!(twice.get("nope"), None);
}
