use std::path::PathBuf;

use bun_binary_extractor::paths::{
    file_name_of, next_name, numbered_file_name, output_relative_path, sanitize_source_path,
};

fn output_path(name: &str) -> Option<PathBuf> {
    output_relative_path(name).map(|parts| parts.iter().collect::<PathBuf>())
}

fn sanitized(path: &str) -> Option<String> {
    sanitize_source_path(path)
}

#[test]
fn strips_bun_root_prefix() {
    assert_eq!(
        output_path("/$bunfs/root/src/index.js"),
        Some(PathBuf::from("src/index.js"))
    );
}

#[test]
fn keeps_virtual_dependency_paths_inside_output_dir() {
    assert_eq!(
        output_path("/$bunfs/root/../../node_modules/.bun/pkg/node_modules/pkg/parser.worker.js"),
        Some(PathBuf::from(
            "node_modules/.bun/pkg/node_modules/pkg/parser.worker.js"
        ))
    );
}

#[test]
fn rejects_host_parent_escapes() {
    assert_eq!(output_path("../../etc/passwd"), None);
}

#[test]
fn rejects_host_absolute_paths() {
    assert_eq!(output_path("/etc/passwd"), None);
}

#[test]
fn sanitize_source_path_preserves_bun_virtual_dependencies() {
    assert_eq!(
        sanitize_source_path("/$bunfs/root/../../node_modules/pkg/parser.worker.js"),
        Some("node_modules/pkg/parser.worker.js".to_string())
    );
}

#[test]
fn sanitize_source_path_accepts_windows_virtual_prefixes() {
    assert_eq!(
        sanitize_source_path("B:\\~BUN\\root\\src\\app.ts"),
        Some("src/app.ts".to_string())
    );
    assert_eq!(
        sanitize_source_path("B:/~BUN/root/src/app.ts"),
        Some("src/app.ts".to_string())
    );
}

#[test]
fn sanitize_source_path_keeps_legacy_leading_parent_behavior() {
    assert_eq!(
        sanitize_source_path("../../src/app.ts"),
        Some("src/app.ts".to_string())
    );
    assert_eq!(sanitize_source_path("src/../app.ts"), None);
    assert_eq!(
        sanitize_source_path("/tmp/out.js"),
        Some("tmp/out.js".to_string())
    );
}

#[test]
fn sanitizing_refuses_what_leads_nowhere() {
    assert_eq!(sanitized(""), None);
    assert_eq!(sanitized(".."), None);
    assert_eq!(sanitized("/"), None);
    assert_eq!(sanitized("./."), None);
    assert_eq!(sanitized("/$bunfs/root/.."), None);
    assert_eq!(sanitized("/$bunfs/root/a/.."), None);
    assert_eq!(sanitized("C:/windows"), None);
    assert_eq!(sanitized("a/b:c"), None);
    assert_eq!(sanitized("a/.."), None);
}

#[test]
fn sanitizing_cleans_up_paths() {
    assert_eq!(sanitized("a//./b"), Some("a/b".to_string()));
    assert_eq!(sanitized("a\\b\\c.ts"), Some("a/b/c.ts".to_string()));
    assert_eq!(sanitized("//../../x"), Some("x".to_string()));
    assert_eq!(sanitized("../"), None);
    assert_eq!(sanitized("/$bunfs/app.js"), Some("app.js".to_string()));
    assert_eq!(sanitized("/$bunfs/root/a/../../b"), Some("b".to_string()));
    assert_eq!(sanitized("/$bunfs/root/root/x"), Some("root/x".to_string()));
    assert_eq!(sanitized("../a/../b"), None);
}

#[test]
fn sanitizing_twice_changes_nothing() {
    for path in [
        "/$bunfs/root/../../node_modules/pkg/a.js",
        "..\\..\\x\\y.ts",
        "//a//b",
        "...",
        "..a/b..",
    ] {
        let once = sanitized(path).unwrap();
        assert_eq!(sanitized(&once), Some(once.clone()));
        assert_eq!(output_path(&once), Some(PathBuf::from(once)));
    }
}

#[test]
fn steps_up_from_the_virtual_root_do_nothing() {
    for rest in ["a.js", "x/y.js", "../z.js", "node_modules/p/i.js"] {
        let straight = format!("/$bunfs/root/{rest}");
        let stepping = format!("/$bunfs/root/../{rest}");
        assert_eq!(sanitized(&stepping), sanitized(&straight));
        assert_eq!(output_path(&stepping), output_path(&straight));
    }
}

#[test]
fn module_paths_by_prefix() {
    assert_eq!(output_path("/$bunfs/a.js"), Some(PathBuf::from("a.js")));
    assert_eq!(output_path("/$bunfs/root/root/a.js"), Some(PathBuf::from("a.js")));
    assert_eq!(output_path("/$bunfs/root/../root/a.js"), Some(PathBuf::from("root/a.js")));
    assert_eq!(output_path("B:\\~BUN\\root\\a.js"), Some(PathBuf::from("a.js")));
    assert_eq!(output_path("B:\\~BUN\\x\\a.js"), Some(PathBuf::from("x/a.js")));
    assert_eq!(output_path("B:/~BUN/root/x\\a.js"), Some(PathBuf::from("x/a.js")));
    assert_eq!(output_path("a/../b.js"), Some(PathBuf::from("b.js")));
    assert_eq!(output_path("./a.js"), Some(PathBuf::from("a.js")));
}

#[test]
fn module_paths_that_are_refused() {
    assert_eq!(output_path(""), None);
    assert_eq!(output_path("\\a.js"), None);
    assert_eq!(output_path("a\0.js"), None);
    assert_eq!(output_path("/$bunfs/root/a\0.js"), None);
    assert_eq!(output_path("C:a.js"), None);
    assert_eq!(output_path("/$bunfs/root/c:/a.js"), None);
    assert_eq!(output_path("a/../../b.js"), None);
    assert_eq!(output_path("/$bunfs/root/"), None);
    assert_eq!(output_path("a/.."), None);
}

#[test]
fn module_path_parts_are_separate() {
    assert_eq!(
        output_relative_path("/$bunfs/root/a/b/c.js"),
        Some(vec!["a".to_string(), "b".to_string(), "c.js".to_string()])
    );
}

#[test]
fn numbered_names_keep_the_extension() {
    let named = |name: &str, number: usize| {
        numbered_file_name("dir/whole", &Some(name.to_string()), number)
    };
    assert_eq!(named("app.ts", 1), "app_1.ts");
    assert_eq!(named("a.b.js", 12), "a.b_12.js");
    assert_eq!(named(".env", 3), ".env_3");
    assert_eq!(named("Makefile", 7), "Makefile_7");
    assert_eq!(named("dot.", 2), "dot_2.");
    assert_eq!(named(".a.b", 4), ".a_4.b");
    assert_eq!(named("..", 5), ".._5");
    assert_eq!(numbered_file_name("dir/whole", &None, 10), "dir/whole_10");
}

#[test]
fn file_names_of_portable_paths() {
    let name = |path: &str| file_name_of(path);
    assert_eq!(name("src/app.ts").as_deref(), Some("app.ts"));
    assert_eq!(name("app.ts").as_deref(), Some("app.ts"));
    assert_eq!(name("/usr/bin/").as_deref(), Some("bin"));
    assert_eq!(name("src/app.ts/.//").as_deref(), Some("app.ts"));
    assert_eq!(name("a/../b.ts").as_deref(), Some("b.ts"));
    assert_eq!(name("src\\lib\\c.ts").as_deref(), Some("c.ts"));
    assert_eq!(name("/$bunfs/root/d.ts").as_deref(), Some("d.ts"));
    assert_eq!(name("B:/~BUN/root/src/app.ts").as_deref(), Some("app.ts"));
    assert_eq!(name("C:\\src\\d.ts").as_deref(), Some("d.ts"));
    assert_eq!(name("C:src/e.ts").as_deref(), Some("e.ts"));
    assert_eq!(name("webpack:///src/a.ts").as_deref(), Some("a.ts"));
    assert_eq!(name("x/a:b.ts").as_deref(), Some("a:b.ts"));
    assert_eq!(name("node:fs").as_deref(), Some("node:fs"));
    assert_eq!(name("C:/.."), None);
    assert_eq!(name("..."), Some("...".to_string()));
    for path in ["", ".", "./.", "/", "..", "../..", "a/..", "a\\..", "a/../."] {
        assert_eq!(name(path), None, "{path}");
    }
}

#[test]
fn names_are_tried_until_one_is_free() {
    let path = "src/app.ts";
    let file_name = file_name_of(path);
    assert_eq!(next_name(path, &file_name, 1, false), None);
    assert_eq!(next_name(path, &file_name, 1, true).as_deref(), Some("app_1.ts"));
    assert_eq!(next_name(path, &file_name, 204, true).as_deref(), Some("app_204.ts"));
    assert_eq!(next_name("..", &file_name_of(".."), 1, true).as_deref(), Some(".._1"));
    assert_eq!(next_name("..", &file_name_of(".."), 1, false), None);
}

#[test]
fn numbered_names_are_all_different() {
    let file_name = file_name_of("a/b.ts");
    let names: Vec<Option<String>> =
        (1..=120).map(|number| next_name("a/b.ts", &file_name, number, true)).collect();
    for (i, name) in names.iter().enumerate() {
        assert!(!names[..i].contains(name));
    }
}

#[test]
fn numbered_names_stay_plain() {
    for path in ["a/b.ts", "x/.env", "deep/er/Makefile", "..."] {
        let name = next_name(path, &file_name_of(path), 3, true).unwrap();
        assert_eq!(sanitized(&name).as_ref(), Some(&name));
        assert!(!name.contains('/'));
    }
}
