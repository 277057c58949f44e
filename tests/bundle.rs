use mono_class::bytes::{OsStrExt, ends_with, starts_with, strip_extension, strip_prefix, strip_suffix, trim_start};
use mono_class::lang::{LineAST, ParseError, Source};
use mono_class::map::{plan_dir, DirEntry, SourceMap, Step};
use mono_class::resolve::{assemble, discover, resolve};

fn names(v: &[&str]) -> Vec<Vec<u8>> {
    v.iter().map(|s| s.as_bytes().to_vec()).collect()
}

fn load(map: &mut SourceMap, siblings: &[&str], name: &str, content: &str) {
    map.load_file(&names(siblings), name.as_bytes(), content.as_bytes())
        .unwrap();
}

fn text(v: &[u8]) -> String {
    String::from_utf8(v.to_vec()).unwrap()
}

#[test]
fn classifies_static_import() {
    match LineAST::from_line(b"import static java.lang.Math.max;").unwrap() {
        LineAST::StaticImport(x) => assert_eq!(x, b"java.lang.Math.max".to_vec()),
        other => panic!("unexpected {}", other.kind_name()),
    }
}

#[test]
fn classifies_import_and_package() {
    match LineAST::from_line(b"import app.util.Helper;").unwrap() {
        LineAST::Import(x) => assert_eq!(x, b"app.util.Helper".to_vec()),
        other => panic!("unexpected {}", other.kind_name()),
    }
    match LineAST::from_line(b"package app.core;").unwrap() {
        LineAST::Package(x) => assert_eq!(x, b"app.core".to_vec()),
        other => panic!("unexpected {}", other.kind_name()),
    }
}

#[test]
fn classifies_decorator_and_comment() {
    assert_eq!(LineAST::from_line(b"    @Override").unwrap().kind_name(), "decorater");
    assert_eq!(LineAST::from_line(b"  // note").unwrap().kind_name(), "comment");
}

#[test]
fn classifies_public_declarations() {
    for (line, rest) in [
        ("public class Foo {", " class Foo {"),
        ("  public interface Bar {", " interface Bar {"),
        ("public enum Baz {", " enum Baz {"),
    ] {
        match LineAST::from_line(line.as_bytes()).unwrap() {
            LineAST::Visibility(x) => assert_eq!(text(&x), rest),
            other => panic!("unexpected {}", other.kind_name()),
        }
    }
}

#[test]
fn classifies_other_lines_verbatim() {
    for line in ["    public static void main() {", "int x = 1;", "", "   "] {
        match LineAST::from_line(line.as_bytes()).unwrap() {
            LineAST::Other(x) => assert_eq!(text(&x), line),
            other => panic!("unexpected {}", other.kind_name()),
        }
    }
}

#[test]
fn malformed_directive_is_an_error() {
    assert!(matches!(LineAST::from_line(b"import"), Err(ParseError::MissingToken)));
    assert!(matches!(LineAST::from_line(b"package"), Err(ParseError::MissingToken)));
    assert!(matches!(LineAST::from_line(b"import static"), Err(ParseError::MissingToken)));
    assert!(Source::from_bytes(b"A.java", b"class A {}\nimport\n").is_err());
}

#[test]
fn reclassified_body_lines_stay_other() {
    let src = Source::from_bytes(b"A.java", b"public class A {\n  int x;\n}\n").unwrap();
    let mut src = src;
    let body = src.into_content();
    for line in body.split(|&c| c == b'\n') {
        assert_eq!(LineAST::from_line(line).unwrap().kind_name(), "other");
    }
}

#[test]
fn extracts_a_unit() {
    let content = "package app;\nimport java.util.List;\nimport app.other.Thing;\n@Deprecated\n// comment\npublic class Main {\n  int x;\n}\n";
    let mut src = Source::from_bytes(b"Main.java", content.as_bytes()).unwrap();
    assert_eq!(src.get_path(), b"app.Main");
    assert_eq!(src.get_import_files().to_vec(), names(&["app.other.Thing"]));
    assert_eq!(text(&src.get_import_content()), "import java.util.List;\n");
    assert_eq!(text(&src.into_content()), " class Main {\n  int x;\n}\n");
    assert!(src.get_import_content().is_empty());
    assert!(src.into_content().is_empty());
}

#[test]
fn first_package_line_wins() {
    let src = Source::from_bytes(b"A.java", b"package one;\npackage two;\nclass A {}\n").unwrap();
    assert_eq!(src.get_path(), b"one.A");
}

#[test]
fn empty_file_gives_an_empty_unit() {
    let mut src = Source::from_bytes(b"Empty.java", b"").unwrap();
    assert_eq!(src.get_path(), b"Empty");
    assert!(src.get_import_files().is_empty());
    assert!(src.into_content().is_empty());
}

#[test]
fn insert_import_uses_own_package() {
    let mut src = Source::from_bytes(b"Main.java", b"package app.core;\n").unwrap();
    src.insert_import(b"Util");
    assert_eq!(src.get_import_files().to_vec(), names(&["app.core.Util"]));
    let mut bare = Source::from_bytes(b"Main.java", b"class Main {}\n").unwrap();
    bare.insert_import(b"Util");
    assert_eq!(bare.get_import_files().to_vec(), names(&["Util"]));
}

#[test]
fn byte_helpers() {
    assert_eq!(strip_extension(b"Main.java"), b"Main".to_vec());
    assert_eq!(strip_extension(b"a.b.c"), b"a.b".to_vec());
    assert_eq!(strip_extension(b"dir"), b"dir".to_vec());
    assert_eq!(strip_suffix(b"x;", b";"), b"x".to_vec());
    assert_eq!(strip_suffix(b"x", b";"), b"x".to_vec());
    assert_eq!(strip_prefix(b"public class", b"public"), b" class".to_vec());
    assert_eq!(trim_start(b"   a b"), b"a b".to_vec());
    assert!(ends_with(b"FooTest.java", b"Test.java"));
    assert!(!starts_with(b"jav", b"java"));
}

#[test]
fn byte_trait_on_slices() {
    let name: &[u8] = b"  Util.java";
    assert_eq!(OsStrExt::trim_start(name), b"Util.java".to_vec());
    assert_eq!(OsStrExt::strip_extension(&name[2..]), b"Util".to_vec());
    assert_eq!(OsStrExt::strip_suffix(name, b".java"), b"  Util".to_vec());
    assert_eq!(OsStrExt::strip_prefix(name, b"  "), b"Util.java".to_vec());
    assert!(OsStrExt::ends_with(name, b".java"));
    assert!(OsStrExt::starts_with(name, b"  U"));
}

#[test]
fn plan_skips_tests_and_foreign_extensions() {
    let entries = vec![
        DirEntry { name: b"Main.java".to_vec(), is_dir: false },
        DirEntry { name: b"MainTest.java".to_vec(), is_dir: false },
        DirEntry { name: b"sub".to_vec(), is_dir: true },
        DirEntry { name: b"notes.txt".to_vec(), is_dir: false },
        DirEntry { name: b"README".to_vec(), is_dir: false },
    ];
    let plan = plan_dir(&entries);
    assert_eq!(plan.siblings, names(&["Main.java", "sub", "notes.txt", "README"]));
    let steps: Vec<String> = plan
        .steps
        .iter()
        .map(|s| match s {
            Step::Descend(n) => format!("descend {}", text(n)),
            Step::Load(n) => format!("load {}", text(n)),
        })
        .collect();
    assert_eq!(steps, vec!["load Main.java", "descend sub", "load README"]);
}

#[test]
fn test_file_is_never_loaded_or_offered() {
    let mut map = SourceMap::new();
    load(&mut map, &["A.java"], "ATest.java", "class ATest {}\n");
    assert!(map.get(b"ATest").is_none());
    let entries = vec![
        DirEntry { name: b"A.java".to_vec(), is_dir: false },
        DirEntry { name: b"ATest.java".to_vec(), is_dir: false },
    ];
    let plan = plan_dir(&entries);
    assert_eq!(plan.siblings, names(&["A.java"]));
    load(&mut map, &["A.java"], "A.java", "class A {}\n");
    let out = resolve(map, b"A");
    assert_eq!(text(&out.output), "class A {}\n");
}

#[test]
fn sibling_is_visible_without_import() {
    let sibs = ["A.java", "B.java"];
    let mut map = SourceMap::new();
    load(&mut map, &sibs, "A.java", "class A {}\n");
    load(&mut map, &sibs, "B.java", "class B {}\n");
    let order = discover(&map, b"A");
    assert_eq!(order, names(&["A", "B"]));
}

#[test]
fn lone_unit_resolves_to_itself() {
    let mut map = SourceMap::new();
    load(&mut map, &[], "Solo.java", "import java.util.Map;\nclass Solo {}\n");
    let out = resolve(map, b"Solo");
    assert_eq!(text(&out.output), "import java.util.Map;\nclass Solo {}\n");
    assert!(out.missing.is_empty());
}

fn sample_map() -> SourceMap {
    let sibs = ["Main.java", "Util.java", "Extra.java"];
    let mut map = SourceMap::new();
    load(&mut map, &sibs, "Main.java", "import java.io.File;\nclass Main {}\n");
    load(&mut map, &sibs, "Util.java", "class Util {}\n");
    load(&mut map, &sibs, "Extra.java", "import java.io.File;\nclass Extra {}\n");
    map
}

#[test]
fn resolution_is_repeatable() {
    let a = resolve(sample_map(), b"Main");
    let b = resolve(sample_map(), b"Main");
    assert_eq!(a.output, b.output);
    assert_eq!(
        text(&a.output),
        "import java.io.File;\nimport java.io.File;\nclass Main {}\nclass Util {}\nclass Extra {}\n"
    );
}

#[test]
fn discovery_order_is_first_met() {
    let mut map = SourceMap::new();
    load(&mut map, &[], "A.java", "import B;\nimport C;\nclass A {}\n");
    load(&mut map, &[], "B.java", "import D;\nclass B {}\n");
    load(&mut map, &[], "C.java", "class C {}\n");
    load(&mut map, &[], "D.java", "import A;\nclass D {}\n");
    let order = discover(&map, b"A");
    assert_eq!(order, names(&["A", "B", "C", "D"]));
    let out = assemble(map, &order);
    assert_eq!(text(&out.output), "class A {}\nclass B {}\nclass C {}\nclass D {}\n");
}

#[test]
fn package_siblings_bundle_in_order() {
    let sibs = ["Main.java", "Util.java"];
    let mut map = SourceMap::new();
    load(&mut map, &sibs, "Main.java", "package app;\npublic class Main { Util.x(); }\n");
    load(&mut map, &sibs, "Util.java", "package app;\npublic class Util { }\n");
    let entry = Source::from_bytes(b"Main.java", b"package app;\npublic class Main { Util.x(); }\n").unwrap();
    let out = text(&resolve(map, entry.get_path()).output);
    let main = out.find("class Main { Util.x(); }").unwrap();
    let util = out.find("class Util { }").unwrap();
    assert!(main < util);
    assert!(!out.contains("package"));
    assert!(!out.contains("public"));
}

#[test]
fn foreign_imports_are_not_deduplicated() {
    let sibs = ["Main.java", "Util.java"];
    let mut map = SourceMap::new();
    load(&mut map, &sibs, "Main.java", "import java.util.List;\nclass Main {}\n");
    load(&mut map, &sibs, "Util.java", "import java.util.List;\nclass Util {}\n");
    let out = text(&resolve(map, b"Main").output);
    assert_eq!(out.matches("import java.util.List;\n").count(), 2);
    assert!(out.starts_with("import java.util.List;\nimport java.util.List;\n"));
}

#[test]
fn unresolved_import_is_reported_and_skipped() {
    let mut map = SourceMap::new();
    load(&mut map, &["Main.java"], "Main.java", "import app.Nowhere;\nclass Main {}\n");
    let out = resolve(map, b"Main");
    assert_eq!(text(&out.output), "class Main {}\n");
    assert_eq!(out.missing, names(&["app.Nowhere"]));
}

#[test]
fn missing_entry_gives_empty_output() {
    let out = resolve(SourceMap::new(), b"Ghost");
    assert!(out.output.is_empty());
    assert_eq!(out.missing, names(&["Ghost"]));
}

#[test]
fn colliding_identifiers_keep_the_later_unit() {
    let mut map = SourceMap::new();
    load(&mut map, &[], "A.java", "class First {}\n");
    load(&mut map, &[], "A.java", "class Second {}\n");
    let mut taken = map.remove(b"A").unwrap();
    assert_eq!(text(&taken.into_content()), "class Second {}\n");
    assert!(map.remove(b"A").is_none());
}

#[test]
fn sibling_imports_use_the_package_prefix() {
    let mut map = SourceMap::new();
    load(&mut map, &["X.y.java"], "X.y.java", "class Xy {}\n");
    let unit = map.get(b"X.y").unwrap();
    assert_eq!(unit.get_import_files().to_vec(), names(&["X.y"]));

    let sibs = ["A.b.java", "C.java"];
    let mut packaged = SourceMap::new();
    load(&mut packaged, &sibs, "A.b.java", "package p.q;\nclass Ab {}\n");
    let unit = packaged.get(b"p.q.A.b").unwrap();
    assert_eq!(unit.get_import_files().to_vec(), names(&["p.q.A.b", "p.q.C"]));
}

#[test]
fn kind_names_match_categories() {
    assert_eq!(LineAST::from_line(b"import static a.B.c;").unwrap().kind_name(), "static import");
    assert_eq!(LineAST::from_line(b"import a.B;").unwrap().kind_name(), "import");
    assert_eq!(LineAST::from_line(b"package a;").unwrap().kind_name(), "package");
    assert_eq!(LineAST::from_line(b"public class A {").unwrap().kind_name(), "visibility");
}

#[test]
fn unit_importing_itself_and_missing_names_resolves_to_itself() {
    let mut map = SourceMap::new();
    load(&mut map, &["Solo.java"], "Solo.java", "import java.util.Map;\nimport gone.Away;\nclass Solo {}\n");
    let out = resolve(map, b"Solo");
    assert_eq!(text(&out.output), "import java.util.Map;\nclass Solo {}\n");
    assert_eq!(out.missing, names(&["gone.Away"]));
}
