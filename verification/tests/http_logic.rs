use gash::http::{
    absolute_path_text, contains_parent_step, name_extension_of, request_path, resolve, route,
    route_for, Route,
};
use std::path::Path;

fn strings(v: &[&str]) -> Vec<String> {
    v.iter().map(|s| s.to_string()).collect()
}

#[test]
fn request_path_takes_second_word() {
    assert_eq!(
        request_path("GET /index.html HTTP/1.1\r\nHost: x\r\n"),
        Some("./index.html".to_string())
    );
    assert_eq!(request_path("GET / HTTP/1.1"), Some("./".to_string()));
    assert_eq!(request_path("GET  x"), Some(".".to_string()));
    assert_eq!(request_path("GET /"), None);
    assert_eq!(request_path(""), None);
}

#[test]
fn parent_steps() {
    assert!(contains_parent_step("./a/../b.html"));
    assert!(!contains_parent_step("./a/..b.html"));
    assert!(!contains_parent_step("./.."));
    assert!(!contains_parent_step(""));
}

#[test]
fn route_for_decides_answer() {
    let html = Some("html".to_string());
    assert_eq!(route_for("./a.html", &html, true, false), Route::ServeFile);
    assert_eq!(route_for("./x/../a.html", &html, true, false), Route::Forbidden);
    assert_eq!(route_for("./a.txt", &Some("txt".to_string()), true, false), Route::Forbidden);
    assert_eq!(route_for("./a", &None, true, false), Route::Forbidden);
    assert_eq!(route_for("./missing.html", &html, false, false), Route::Greeting);
    assert_eq!(route_for("./dir", &None, true, true), Route::Greeting);
}

#[test]
fn resolve_folds_dots() {
    assert_eq!(resolve("/srv/www", "./a.html"), strings(&["srv", "www", "a.html"]));
    assert_eq!(resolve("/srv/www", "./f.html/x/.."), strings(&["srv", "www", "f.html"]));
    assert_eq!(resolve("/srv/www", "./../../../x"), strings(&["x"]));
    assert_eq!(resolve("/srv", "././/./b//"), strings(&["srv", "b"]));
    assert_eq!(resolve("/", "./.."), strings(&[]));
}

#[test]
fn absolute_path_texts() {
    assert_eq!(absolute_path_text(&strings(&["srv", "a.html"])), "/srv/a.html");
    assert_eq!(absolute_path_text(&strings(&[])), "/");
    assert_eq!(absolute_path_text(&resolve("/srv/www", "./x/../y.html")), "/srv/www/y.html");
}

#[test]
fn route_reads_extension_of_resolved_path() {
    assert_eq!(route("./a.html", "/srv", true, false), Route::ServeFile);
    // the file named after folding `x/..` is `f.html`, and the raw path has
    // no `/../` step
    assert_eq!(route("./f.html/x/..", "/srv", true, false), Route::ServeFile);
    assert_eq!(route("./notes.html.txt", "/srv", true, false), Route::Forbidden);
    assert_eq!(route("./.html", "/srv", true, false), Route::Forbidden);
    assert_eq!(route("./b/../a.html", "/srv", true, false), Route::Forbidden);
    assert_eq!(route("./a.txt", "/srv", false, false), Route::Greeting);
    // a path that resolves to the directory itself takes the directory's name
    assert_eq!(route("./", "/srv/pages.html", true, false), Route::ServeFile);
}

#[test]
fn name_extension_examples() {
    assert_eq!(name_extension_of("a.html"), Some("html".to_string()));
    assert_eq!(name_extension_of("a.tar.gz"), Some("gz".to_string()));
    assert_eq!(name_extension_of(".bashrc"), None);
    assert_eq!(name_extension_of("a."), Some("".to_string()));
    assert_eq!(name_extension_of("readme"), None);
    assert_eq!(name_extension_of(""), None);
}

#[test]
fn name_extension_agrees_with_std() {
    let samples = [
        "a", "a.b", ".a", ".a.b", "a.", "a..", "...", "x.html", ".html", "a b.c d",
        "\u{e9}t\u{e9}.html", "..a", ".b.", "tar.gz",
    ];
    for name in samples {
        let expected = Path::new(name).extension().map(|e| e.to_str().unwrap().to_string());
        assert_eq!(name_extension_of(name), expected, "name {:?}", name);
    }
}
