use ultunnel_policy::settings::configs_path_from_settings;
use ultunnel_policy::strings::str_ends_with;
use ultunnel_policy::strings::str_eq;
use ultunnel_policy::strings::trim;
use ultunnel_policy::tokens::clean_list_exec;
use ultunnel_policy::tokens::normalize_tokens;
use ultunnel_policy::LocalSettings;
use ultunnel_policy::Platform;

fn list(items: Vec<&str>) -> Vec<String> {
    items.into_iter().map(String::from).collect()
}

#[test]
fn windows_name_without_extension_gains_exe_variant() {
    let (names, paths) = normalize_tokens(&list(vec!["Chrome"]), Platform::Windows);
    assert!(names.contains(&String::from("Chrome")));
    assert!(names.contains(&String::from("chrome")));
    assert!(names.contains(&String::from("chrome.exe")));
    assert!(paths.is_empty());
}

#[test]
fn windows_name_with_exe_extension_gains_stripped_variant() {
    let (names, _) = normalize_tokens(&list(vec!["Chrome.EXE"]), Platform::Windows);
    assert!(names.contains(&String::from("Chrome.EXE")));
    assert!(names.contains(&String::from("chrome.exe")));
    assert!(names.contains(&String::from("chrome")));
}

#[test]
fn windows_name_with_other_extension_gets_no_exe_variant() {
    let (names, _) = normalize_tokens(&list(vec!["helper.bin"]), Platform::Windows);
    assert_eq!(names, list(vec!["helper.bin"]));
}

#[test]
fn non_windows_names_get_one_variant() {
    let (names, paths) = normalize_tokens(&list(vec!["Chrome", "/usr/bin/curl"]), Platform::MacOs);
    assert_eq!(names, list(vec!["Chrome"]));
    assert_eq!(paths, list(vec!["/usr/bin/curl"]));
}

#[test]
fn windows_paths_gain_lowercase_variant() {
    let (names, paths) = normalize_tokens(
        &list(vec!["C:\\Apps\\Tool.exe"]),
        Platform::Windows,
    );
    assert!(names.is_empty());
    assert_eq!(paths, list(vec!["C:\\Apps\\Tool.exe", "c:\\apps\\tool.exe"]));
}

#[test]
fn tokens_are_trimmed_and_empties_dropped() {
    let (names, paths) = normalize_tokens(&list(vec!["  curl  ", "   ", ""]), Platform::Linux);
    assert_eq!(names, list(vec!["curl"]));
    assert!(paths.is_empty());
}

#[test]
fn duplicate_tokens_are_listed_once() {
    let (names, _) = normalize_tokens(&list(vec!["chrome", "Chrome"]), Platform::Windows);
    assert_eq!(names, list(vec!["chrome", "chrome.exe", "Chrome"]));
}

#[test]
fn clean_list_trims_dedups_and_drops_empties() {
    let out = clean_list_exec(&list(vec![" a.com ", "b.org", "a.com", " ", ""]));
    assert_eq!(out, list(vec!["a.com", "b.org"]));
}

#[test]
fn trim_removes_ascii_whitespace() {
    assert_eq!(trim(" \t hello \r\n"), String::from("hello"));
    assert_eq!(trim("   "), String::from(""));
    assert_eq!(trim("x"), String::from("x"));
}

#[test]
fn str_helpers_compare_content() {
    assert!(str_eq("abc", "abc"));
    assert!(!str_eq("abc", "abd"));
    assert!(!str_eq("abc", "ab"));
    assert!(str_ends_with("chrome.exe", ".exe"));
    assert!(!str_ends_with("chrome.ex", ".exe"));
    assert!(!str_ends_with("exe", ".exe"));
}

#[test]
fn configs_path_sits_beside_settings() {
    assert_eq!(
        configs_path_from_settings("/home/u/.config/app/config.json"),
        String::from("/home/u/.config/app/configs.json")
    );
    assert_eq!(
        configs_path_from_settings("C:\\Users\\u\\config.json"),
        String::from("C:\\Users\\u\\configs.json")
    );
    assert_eq!(configs_path_from_settings("config.json"), String::from("configs.json"));
}

#[test]
fn fresh_settings_are_empty() {
    let st = LocalSettings::new();
    assert_eq!(st.access_key, String::new());
    assert!(st.selected_config.is_none());
}
