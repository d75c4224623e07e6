use code_map::appearance::{ext_hue_milli, first_chars, fit_label, text_lines, text_lines_of_bytes, unread_label};
use code_map::i18n::Language;

fn hashed(ext: &str) -> u32 {
    ext.bytes().fold(2166136261u32, |h, b| (h ^ b as u32).wrapping_mul(16777619)) % 1000
}

#[test]
fn hues_for_known_extensions() {
    assert_eq!(ext_hue_milli("main.rs"), 70);
    assert_eq!(ext_hue_milli("core.cljc"), 330);
    assert_eq!(ext_hue_milli("app.cljs"), 450);
    assert_eq!(ext_hue_milli("x.mjs"), 140);
    assert_eq!(ext_hue_milli("x.tsx"), 580);
    assert_eq!(ext_hue_milli("a.scss"), 780);
    assert_eq!(ext_hue_milli("index.html"), 20);
    assert_eq!(ext_hue_milli("Cargo.toml"), 500);
    assert_eq!(ext_hue_milli("notes.txt"), 620);
    assert_eq!((ext_hue_milli("main.rs") as f32) / 1000.0, 0.07f32);
}

#[test]
fn other_extensions_hash_to_a_stable_hue() {
    assert_eq!(ext_hue_milli("archive.tar.gz"), hashed("gz"));
    assert_eq!(ext_hue_milli("Makefile"), hashed(""));
    assert_eq!(ext_hue_milli("Makefile"), 261);
    assert_eq!(ext_hue_milli("DATA.JSON"), hashed("JSON"));
    assert_eq!(ext_hue_milli(".gitignore"), hashed("gitignore"));
    assert_eq!(ext_hue_milli("trailing."), hashed(""));
    assert_eq!(ext_hue_milli("图.数据"), hashed("数据"));
    assert!(ext_hue_milli("x.anything") < 1000);
}

#[test]
fn labels_are_cut_with_an_ellipsis() {
    assert_eq!(fit_label("hello world", 5), "hell…");
    assert_eq!(fit_label("hi", 5), "hi");
    assert_eq!(fit_label("abc", 3), "abc");
    assert_eq!(fit_label("abc", 0), "…");
    assert_eq!(fit_label("地图文件", 2), "地…");
    assert_eq!(first_chars("abcdef", 3), "abc");
    assert_eq!(first_chars("ab", 3), "ab");
}

#[test]
fn unread_labels() {
    assert_eq!(unread_label(Language::English, "target", false), "target (ignored)");
    assert_eq!(unread_label(Language::English, "target", true), "target (reading...)");
    assert_eq!(unread_label(Language::SimplifiedChinese, "t", false), "t (已忽略)");
}

#[test]
fn text_lines_like_str_lines_with_tabs_expanded() {
    for text in ["a\tb\r\nc\n", "", "\n", "x\n\ny", "one", "\r\n\r\n", "a\rb\n\t\t", "x\r", "a\r\nb\r", "\r"] {
        let expected: Vec<String> = text.lines().map(|l| l.replace('\t', "    ")).collect();
        assert_eq!(text_lines(text), expected, "{text:?}");
    }
    assert_eq!(text_lines("a\tb\r\nc\n"), vec!["a    b", "c"]);
}

#[test]
fn file_bytes_are_decoded_before_they_are_split() {
    assert_eq!(text_lines_of_bytes(b"a\r\nb\xff\n"), text_lines("a\r\nb\u{fffd}\n"));
    assert_eq!(text_lines_of_bytes("é\tx".as_bytes()), text_lines("é\tx"));
}
