use dirstat::pathname::{extension_key_of, extension_of};
use std::path::Path;

fn std_extension(path: &str) -> Option<String> {
    Path::new(path).extension().and_then(|e| e.to_str()).map(|e| e.to_string())
}

#[test]
fn extension_is_what_follows_the_last_dot() {
    assert_eq!(extension_of("archive.tar.gz"), Some("gz".to_string()));
    assert_eq!(extension_of("notes.txt"), Some("txt".to_string()));
    assert_eq!(extension_of("/var/log/syslog.1"), Some("1".to_string()));
    assert_eq!(extension_of("./src/main.rs"), Some("rs".to_string()));
}

#[test]
fn name_without_dot_has_no_extension() {
    assert_eq!(extension_of("README"), None);
    assert_eq!(extension_of("/usr/bin/env"), None);
    assert_eq!(extension_of(""), None);
}

#[test]
fn dot_in_a_directory_name_is_no_extension() {
    assert_eq!(extension_of("conf.d/settings"), None);
    assert_eq!(extension_of("a.b/c.d/e"), None);
    assert_eq!(extension_of("a.b/c.d/e.f"), Some("f".to_string()));
}

#[test]
fn leading_dot_alone_is_no_extension() {
    assert_eq!(extension_of(".gitignore"), None);
    assert_eq!(extension_of("home/user/.bashrc"), None);
    assert_eq!(extension_of(".config.toml"), Some("toml".to_string()));
    assert_eq!(extension_of("..hidden"), Some("hidden".to_string()));
}

#[test]
fn trailing_dot_gives_empty_extension() {
    assert_eq!(extension_of("report."), Some(String::new()));
    assert_eq!(extension_of("..."), Some(String::new()));
}

#[test]
fn trailing_separators_and_dot_components_are_passed_over() {
    assert_eq!(extension_of("dir/file.txt/"), Some("txt".to_string()));
    assert_eq!(extension_of("dir/file.txt//"), Some("txt".to_string()));
    assert_eq!(extension_of("dir/file.txt/."), Some("txt".to_string()));
    assert_eq!(extension_of("dir/file.txt/./"), Some("txt".to_string()));
    assert_eq!(extension_of("./"), None);
    assert_eq!(extension_of("."), None);
    assert_eq!(extension_of("/"), None);
}

#[test]
fn path_ending_in_parent_has_no_extension() {
    assert_eq!(extension_of(".."), None);
    assert_eq!(extension_of("dir/file.txt/.."), None);
    assert_eq!(extension_of("dir/file.txt/../"), None);
    assert_eq!(extension_of("dir/file.txt/../."), None);
}

#[test]
fn extension_keeps_its_case_and_other_characters() {
    assert_eq!(extension_of("Photo.JPG"), Some("JPG".to_string()));
    assert_eq!(extension_of("r\u{e9}sum\u{e9}.\u{c9}T\u{c9}"), Some("\u{c9}T\u{c9}".to_string()));
    assert_eq!(extension_of("a.b c"), Some("b c".to_string()));
    assert_eq!(extension_of("\u{1F600}.\u{1F600}x"), Some("\u{1F600}x".to_string()));
}

#[test]
fn extension_agrees_with_std_paths() {
    if std::path::MAIN_SEPARATOR != '/' {
        return;
    }
    let pieces = ["", "a", ".", "..", "/", "b.c", ".d", "e.", "f.g.h", "//", "./", "x/", "..y"];
    for one in pieces {
        for two in pieces {
            for three in pieces {
                for sep in ["", "/"] {
                    let path = format!("{}{}{}{}{}", one, sep, two, sep, three);
                    assert_eq!(extension_of(&path), std_extension(&path), "path {:?}", path);
                }
            }
        }
    }
}

#[test]
fn key_is_extension_in_lowercase() {
    assert_eq!(extension_key_of("archive.tar.gz"), "gz");
    assert_eq!(extension_key_of("Photo.JPG"), "jpg");
    assert_eq!(extension_key_of("Mixed.TxT"), "txt");
    assert_eq!(extension_key_of("caf\u{e9}.\u{c9}T\u{c9}"), "\u{e9}t\u{e9}");
}

#[test]
fn key_without_extension_is_the_sentinel() {
    assert_eq!(extension_key_of("README"), "no_extension");
    assert_eq!(extension_key_of(".gitignore"), "no_extension");
    assert_eq!(extension_key_of("dir.d/Makefile"), "no_extension");
}

#[test]
fn key_of_empty_extension_is_empty() {
    assert_eq!(extension_key_of("report."), "");
}
