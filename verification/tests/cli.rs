use code_map::cli::{project_arg, wants_3d};
use code_map::i18n::Language;

fn strings(items: &[&str]) -> Vec<String> {
    items.iter().map(|s| s.to_string()).collect()
}

#[test]
fn the_project_is_the_first_plain_argument() {
    assert_eq!(project_arg(&strings(&["--3d", "/home/u/p", "x"])), Some("/home/u/p".to_string()));
    assert_eq!(project_arg(&strings(&["--lang=en"])), None);
    assert_eq!(project_arg(&strings(&[])), None);
    assert_eq!(project_arg(&strings(&["-v"])), Some("-v".to_string()));
}

#[test]
fn three_d_flag() {
    assert!(wants_3d(&strings(&["p", "--3d"])));
    assert!(!wants_3d(&strings(&["p", "--3D", "--3dx"])));
    assert!(!wants_3d(&strings(&[])));
}

#[test]
fn language_from_arguments_then_environment() {
    let none: Vec<Option<String>> = vec![None, None];
    assert_eq!(Language::detect_from(&strings(&["app", "--lang=zh-CN"]), &none), Language::SimplifiedChinese);
    // an argument that names no language is passed over
    assert_eq!(
        Language::detect_from(&strings(&["--lang=xx", "--lang=zh"]), &none),
        Language::SimplifiedChinese
    );
    let env = vec![None, Some("C.UTF-8".to_string()), Some("zh_CN.UTF-8".to_string()), Some("en_US".to_string())];
    assert_eq!(Language::detect_from(&strings(&["app"]), &env), Language::SimplifiedChinese);
    assert_eq!(Language::detect_from(&strings(&["--lang=en"]), &env), Language::English);
    assert_eq!(Language::detect_from(&strings(&[]), &vec![Some("de_DE".to_string())]), Language::English);
    assert_eq!(Language::detect_from(&strings(&[]), &Vec::new()), Language::English);
}
