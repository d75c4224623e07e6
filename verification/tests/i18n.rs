use code_map::catalog::{Catalog, Catalogs};
use code_map::i18n::Language;

/// The catalogs shipped in `locales/en-US/main.ftl` and `locales/zh-CN/main.ftl`.
const EN_FTL: &str = "# Interface captions, English. One message per line: id = text.
search-placeholder = Search files and folders
color-file-type = File type
color-recent = Recently changed
color-churn = Most changed
detail-normal = Normal
detail-high = High
detail-ultra = Ultra
detail-custom = Custom
fit = Fit
show-ignored = Show ignored
inspector = INSPECTOR
select-hint = Click something on the map
help-1 = Scroll: zoom
help-2 = Drag: pan (2D) or orbit (3D)
help-3 = Shift or right drag: pan (3D)
help-4 = Click: inspect
help-5 = Double click: fly to it
help-6 = Enter in search: next match
help-7 = Striped boxes are ignored by git.
help-8 = Click one to read it.
custom-detail = CUSTOM DETAIL
geometry-detail = Geometry detail
text-detail = Text detail
render-budget = Render budget (%)
";
const ZH_FTL: &str = "# 界面文字，简体中文。每行一条消息：id = 文字。
search-placeholder = 搜索文件和文件夹
color-file-type = 文件类型
color-recent = 最近更改
color-churn = 更改最多
detail-normal = 普通
detail-high = 高
detail-ultra = 极致
detail-custom = 自定义
fit = 适应窗口
show-ignored = 显示忽略项
inspector = 检查器
select-hint = 点击地图中的项目
help-1 = 滚轮：缩放
help-2 = 拖动：平移（2D）或环绕（3D）
help-3 = Shift 或右键拖动：平移（3D）
help-4 = 单击：检查
help-5 = 双击：飞至目标
help-6 = 搜索中按 Enter：下一个匹配项
help-7 = 条纹方块是 Git 忽略项。
help-8 = 点击可读取内容。
custom-detail = 自定义画质
geometry-detail = 几何细节
text-detail = 文字细节
render-budget = 渲染预算（%）
";

fn shipped() -> Catalogs {
    Catalogs::parse(EN_FTL, ZH_FTL)
}

#[test]
fn parses_supported_language_tags() {
    assert_eq!(
        Language::from_language_tag("zh_CN.UTF-8"),
        Some(Language::SimplifiedChinese)
    );
    assert_eq!(
        Language::from_language_tag("zh-Hans-CN"),
        Some(Language::SimplifiedChinese)
    );
    assert_eq!(
        Language::from_language_tag("en-US"),
        Some(Language::English)
    );
    assert_eq!(Language::from_language_tag("de-DE"), None);
}

#[test]
fn custom_detail_captions_have_both_locales() {
    let c = shipped();
    assert_eq!(Language::English.geometry_detail(&c), "Geometry detail");
    assert_eq!(Language::English.text_detail(&c), "Text detail");
    assert_eq!(Language::English.render_budget(&c), "Render budget (%)");
    assert_eq!(Language::SimplifiedChinese.geometry_detail(&c), "几何细节");
    assert_eq!(Language::SimplifiedChinese.text_detail(&c), "文字细节");
    assert_eq!(Language::SimplifiedChinese.render_budget(&c), "渲染预算（%）");
}

#[test]
fn localizes_compound_status_text() {
    assert_eq!(
        Language::English.summary("12", "345", Some("8")),
        "12 files, 345 lines, 8 commits of history"
    );
    assert_eq!(
        Language::SimplifiedChinese.search_matches("3", "地图"),
        "“地图”有 3 个匹配项。按 Enter 跳转到下一个。"
    );
}

#[test]
fn language_tags_ignore_case_and_encoding() {
    assert_eq!(Language::from_language_tag("ZH"), Some(Language::SimplifiedChinese));
    assert_eq!(Language::from_language_tag("En_gb@euro"), Some(Language::English));
    assert_eq!(Language::from_language_tag("en"), Some(Language::English));
    assert_eq!(Language::from_language_tag("eng"), None);
    assert_eq!(Language::from_language_tag("zhx-CN"), None);
    assert_eq!(Language::from_language_tag(""), None);
    assert_eq!(Language::from_language_tag("C.UTF-8"), None);
}

#[test]
fn selector_positions_round_trip() {
    for language in [Language::English, Language::SimplifiedChinese] {
        assert_eq!(Language::from_index(language.index()), language);
    }
    assert_eq!(Language::from_index(0), Language::English);
    assert_eq!(Language::from_index(1), Language::SimplifiedChinese);
    assert_eq!(Language::from_index(7), Language::English);
}

#[test]
fn byte_sizes_match_one_decimal_formatting() {
    let samples: [u64; 14] = [
        1024,
        1075,
        1280,
        1536,
        1_000_000,
        1_048_575,
        1_048_576,
        3_932_160,
        123_456_789,
        1_073_741_823,
        1_073_741_824,
        5_905_580_032,
        u64::MAX / 3,
        u64::MAX,
    ];
    for b in samples {
        let expected = if b >= 1 << 30 {
            format!("{:.1} GB", b as f64 / (1u64 << 30) as f64)
        } else if b >= 1 << 20 {
            format!("{:.1} MB", b as f64 / (1u64 << 20) as f64)
        } else {
            format!("{:.1} KB", b as f64 / 1024.0)
        };
        assert_eq!(Language::English.bytes(b), expected, "{b}");
    }
    assert_eq!(Language::English.bytes(0), "0 bytes");
    assert_eq!(Language::English.bytes(1023), "1023 bytes");
    assert_eq!(Language::SimplifiedChinese.bytes(7), "7 字节");
    assert_eq!(Language::English.bytes(1536), "1.5 KB");
    assert_eq!(Language::English.bytes(1280), "1.2 KB");
}

#[test]
fn ages_in_days_months_and_years() {
    let day = 86_400;
    assert_eq!(Language::English.age(0), "today");
    assert_eq!(Language::English.age(-5 * day), "today");
    assert_eq!(Language::English.age(day - 1), "today");
    assert_eq!(Language::English.age(day), "yesterday");
    assert_eq!(Language::English.age(2 * day), "2 days ago");
    assert_eq!(Language::English.age(59 * day), "59 days ago");
    assert_eq!(Language::English.age(60 * day), "2 months ago");
    assert_eq!(Language::English.age(729 * day), "24 months ago");
    assert_eq!(Language::English.age(730 * day), "2 years ago");
    assert_eq!(Language::SimplifiedChinese.age(day), "昨天");
    assert_eq!(Language::SimplifiedChinese.age(3 * day), "3 天前");
    assert_eq!(Language::SimplifiedChinese.age(400 * day), "13 个月前");
    assert_eq!(Language::SimplifiedChinese.age(i64::MAX), "292471208677 年前");
}

#[test]
fn inspector_texts() {
    assert_eq!(
        Language::English.folder_details("1,234", "56,789", "1.5 KB", 3),
        "Folder\n1,234 files\n56,789 lines\n1.5 KB\n3 direct children"
    );
    assert_eq!(
        Language::English.text_file_details("10", "2", "300 bytes"),
        "Text file\n10 lines (2 comment lines)\n300 bytes"
    );
    assert_eq!(Language::English.binary_details("2.0 MB"), "Binary or very large file\n2.0 MB");
    assert_eq!(Language::English.ignored_details(true, false), "Ignored folder\nNot read yet. Click it to read it.");
    assert_eq!(Language::English.ignored_details(false, true), "Ignored file\nReading it now ...");
    assert_eq!(Language::SimplifiedChinese.ignored_details(true, true), "已忽略的文件夹\n正在读取……");
    assert_eq!(
        Language::English.git_details("4", "yesterday"),
        "\n\nGit: 4 commits\nlast changed yesterday"
    );
    assert_eq!(Language::English.no_commits(), "\n\nGit: no commits in history");
    assert_eq!(Language::English.matched_gitignore(), "\n\nMatched by .gitignore");
}

#[test]
fn status_texts() {
    assert_eq!(Language::English.scanning("/tmp/x"), "Scanning /tmp/x ...");
    assert_eq!(Language::English.reading_history(), "Reading git history ...");
    assert_eq!(Language::English.summary("1", "2", None), "1 files, 2 lines");
    assert_eq!(Language::SimplifiedChinese.summary("1", "2", None), "1 个文件，2 行");
    assert_eq!(Language::English.scan_failed("boom"), "Could not scan: boom");
    assert_eq!(Language::English.expanded_ignored("target", "12"), "Read ignored target: 12 files");
    assert_eq!(Language::English.history_failed("no git"), "No git history: no git");
    assert_eq!(Language::English.no_folder(), "No folder opened");
    assert_eq!(
        Language::English.search_matches("3", "map"),
        "3 matches for \"map\". Press Enter to fly to the next one."
    );
    let c = shipped();
    assert_eq!(Language::English.color_modes(&c), vec!["File type", "Recently changed", "Most changed"]);
    assert_eq!(Language::SimplifiedChinese.detail_levels(&c), vec!["普通", "高", "极致", "自定义"]);
    assert_eq!(Language::language_names().len(), 2);
}

#[test]
fn scan_status_names_the_time_and_the_ignore_rules() {
    assert_eq!(
        Language::English.scanned("3 files, 5 lines", "0.42", true),
        "3 files, 5 lines, scanned in 0.42s (ignore rules from git)"
    );
    assert_eq!(
        Language::English.scanned("1 files, 2 lines", "1.00", false),
        "1 files, 2 lines, scanned in 1.00s (no git: read .gitignore files)"
    );
    assert_eq!(
        Language::SimplifiedChinese.scanned("3 个文件，5 行", "0.42", true),
        "3 个文件，5 行，扫描耗时 0.42 秒（使用 Git 忽略规则）"
    );
    assert_eq!(
        Language::SimplifiedChinese.scanned("3 个文件，5 行", "2.10", false),
        "3 个文件，5 行，扫描耗时 2.10 秒（无 Git：读取 .gitignore 文件）"
    );
}

#[test]
fn captions_come_from_the_catalogs_with_english_as_fallback() {
    let c = shipped();
    assert_eq!(Language::SimplifiedChinese.fit(&c), "适应窗口");
    assert_eq!(Language::English.search_placeholder(&c), "Search files and folders");
    assert_eq!(
        Language::English.help(&c),
        "Scroll: zoom\nDrag: pan (2D) or orbit (3D)\nShift or right drag: pan (3D)\nClick: inspect\nDouble click: fly to it\nEnter in search: next match\nStriped boxes are ignored by git.\nClick one to read it."
    );
    // no Chinese catalog: the English text
    let english_only = Catalogs { english: Catalog::parse(EN_FTL), chinese: Catalog::new() };
    assert_eq!(Language::SimplifiedChinese.fit(&english_only), "Fit");
    assert_eq!(Language::SimplifiedChinese.show_ignored(&english_only), "Show ignored");
    // an edited catalog wins over the shipped text
    let edited = Catalogs { english: Catalog::parse(EN_FTL), chinese: Catalog::parse("fit = 适配") };
    assert_eq!(Language::SimplifiedChinese.fit(&edited), "适配");
    assert_eq!(Language::SimplifiedChinese.inspector(&edited), "INSPECTOR");
    // nothing at all: the ids
    let none = Catalogs { english: Catalog::new(), chinese: Catalog::new() };
    assert_eq!(Language::English.fit(&none), "fit");
    assert_eq!(Language::English.select_hint(&none), "select-hint");
    assert_eq!(Language::English.custom_detail(&none), "custom-detail");
}
