//! Tests of the dictionary, the renderer and the tree materializer: the
//! end-to-end scenarios, each reachable failure, and determinism of the
//! walk order.

use tempura::handle_directory;
use tempura::handle_file;
use tempura::parse_data;
use tempura::render;
use tempura::Dict;
use tempura::Entry;
use tempura::Error;
use tempura::Segment;

fn dict_of(pairs: &[(&str, &str)]) -> Dict {
    let mut d = Dict::new();
    for (k, v) in pairs {
        d.insert(k.to_string(), v.to_string());
    }
    d
}

#[test]
fn test_error_create_directory_failed() {
    // a destination-side I/O failure; nothing in the in-memory model can
    // produce it
}

#[test]
fn test_error_current_directory_not_found() {
    // resolving the process's working directory happens outside the library
}

#[test]
fn test_error_read_directory_failed() {
    // listing a template directory happens outside the library
}

#[test]
fn test_error_read_file_failed() {
    // a file whose text could not be read fails with its name, after the
    // path segments passed validation
    let d = dict_of(&[("name", "World")]);
    let r = handle_file(
        &Vec::new(),
        &String::new(),
        &"notes.txt".to_string(),
        &None,
        &d,
    );
    assert_eq!(r, Err(Error::ReadFileFailed("notes.txt".to_string())));
}

#[test]
fn test_error_template_file_name_is_not_utf8() {
    // decoding a file name happens outside the library, before the
    // per-file processing is called
}

#[test]
fn test_error_write_file_failed() {
    // writing the output file happens outside the library
}

#[test]
fn test_error_template_dir_name_is_not_utf8() {
    // an undecodable directory name fails with the parent path's display,
    // and only after the file name itself rendered cleanly
    let d = dict_of(&[("name", "World")]);
    let dirs = vec![Segment::NotUtf8];
    let r = handle_file(
        &dirs,
        &"bad\u{fffd}dir".to_string(),
        &"{{name}}.txt".to_string(),
        &Some("Hello".to_string()),
        &d,
    );
    assert_eq!(
        r,
        Err(Error::TemplateDirNameIsNotUtf8("bad\u{fffd}dir".to_string()))
    );
}

#[test]
fn test_error_variable_not_found_in_render() {
    let d = dict_of(&[("name1", "World")]);
    assert_eq!(
        render("Hello,{{name}}", &d),
        Err(Error::VariableNotFound("name".to_string()))
    );
}

#[test]
fn test_render_applies_each_substitution_once() {
    let d = dict_of(&[("greet", "Hi"), ("name", "World")]);
    assert_eq!(render("{{greet}},{{name}}!", &d), Ok("Hi,World!".to_string()));
    // the substituted value is not re-scanned for placeholders
    let d2 = dict_of(&[("a", "{{b}}"), ("b", "x")]);
    assert_eq!(render("{{a}}", &d2), Ok("{{b}}".to_string()));
}

#[test]
fn test_parse_data_json_object() {
    let d = parse_data("{\"name\":\"World\"}").unwrap();
    assert_eq!(render("Hello,{{name}}", &d), Ok("Hello,World".to_string()));
}

#[test]
fn test_parse_data_rejects_invalid_json() {
    match parse_data("name=World") {
        Err(e) => assert_eq!(e, Error::InputIsNotValidJson),
        Ok(_) => panic!("parse_data accepted text that is not JSON"),
    }
}

#[test]
fn test_example_simple_tree() {
    let d = dict_of(&[("name", "World")]);
    let entries = vec![Entry::File {
        name: "{{name}}.txt".to_string(),
        content: "Hello,{{name}}".to_string(),
    }];
    let out = handle_directory(entries, &Vec::new(), &String::new(), &d).unwrap();
    assert_eq!(out.len(), 1);
    assert_eq!(out[0].dirs, Vec::<String>::new());
    assert_eq!(out[0].name, "World.txt");
    assert_eq!(out[0].content, "Hello,World");
}

#[test]
fn test_example_some_vars_tree() {
    let d = dict_of(&[
        ("date", "20010203"),
        ("file", "message"),
        ("greet", "Hi"),
        ("name", "World"),
    ]);
    let entries = vec![Entry::File {
        name: "{{file}}{{date}}.txt".to_string(),
        content: "{{greet}},{{name}}!".to_string(),
    }];
    let out = handle_directory(entries, &Vec::new(), &String::new(), &d).unwrap();
    assert_eq!(out.len(), 1);
    assert_eq!(out[0].name, "message20010203.txt");
    assert_eq!(out[0].content, "Hi,World!");
}

#[test]
fn test_example_escape_braces_tree() {
    let d = dict_of(&[("{{", "unused"), ("\"{{\"", "unused")]);
    let entries = vec![Entry::File {
        name: "file.txt".to_string(),
        content: r#"{{ or {{"{{"}}"#.to_string(),
    }];
    let out = handle_directory(entries, &Vec::new(), &String::new(), &d).unwrap();
    assert_eq!(out.len(), 1);
    assert_eq!(out[0].name, "file.txt");
    assert_eq!(out[0].content, "{{ or {{");
}

#[test]
fn test_example_nested_directory_tree() {
    let d = dict_of(&[("name", "World")]);
    let entries = vec![Entry::Dir {
        name: "nested".to_string(),
        entries: vec![Entry::File {
            name: "{{name}}.txt".to_string(),
            content: "Hello,{{name}}".to_string(),
        }],
    }];
    let out = handle_directory(entries, &Vec::new(), &String::new(), &d).unwrap();
    assert_eq!(out.len(), 1);
    assert_eq!(out[0].dirs, vec!["nested".to_string()]);
    assert_eq!(out[0].name, "World.txt");
    assert_eq!(out[0].content, "Hello,World");
}

#[test]
fn test_example_variable_directory_tree() {
    let d = dict_of(&[("foo", "123"), ("bar", "456"), ("name", "World")]);
    let entries = vec![Entry::Dir {
        name: "{{foo}}".to_string(),
        entries: vec![Entry::Dir {
            name: "{{bar}}".to_string(),
            entries: vec![Entry::File {
                name: "{{name}}.txt".to_string(),
                content: "Hello,{{name}}".to_string(),
            }],
        }],
    }];
    let out = handle_directory(entries, &Vec::new(), &String::new(), &d).unwrap();
    assert_eq!(out.len(), 1);
    assert_eq!(out[0].dirs, vec!["123".to_string(), "456".to_string()]);
    assert_eq!(out[0].name, "World.txt");
    assert_eq!(out[0].content, "Hello,World");
}

#[test]
fn test_error_variable_contains_path_separator_tree() {
    let d = dict_of(&[("name", "foo/bar")]);
    let entries = vec![Entry::File {
        name: "{{name}}.txt".to_string(),
        content: "Hello,{{name}}".to_string(),
    }];
    match handle_directory(entries, &Vec::new(), &String::new(), &d) {
        Err(Error::VariableContainsPathSeparator(tmpl, rendered)) => {
            assert_eq!(tmpl, "{{name}}.txt");
            assert_eq!(rendered, "foo/bar.txt");
        }
        other => panic!("expected a path-separator violation, got {:?}", other),
    }
}

#[test]
fn test_error_variable_contains_path_separator_nested() {
    let d = dict_of(&[("name", "foo/bar")]);
    let entries = vec![Entry::Dir {
        name: "nested".to_string(),
        entries: vec![Entry::File {
            name: "{{name}}.txt".to_string(),
            content: "Hello,{{name}}".to_string(),
        }],
    }];
    match handle_directory(entries, &Vec::new(), &String::new(), &d) {
        Err(Error::VariableContainsPathSeparator(tmpl, rendered)) => {
            assert_eq!(tmpl, "nested/{{name}}.txt");
            assert_eq!(rendered, "nested/foo/bar.txt");
        }
        other => panic!("expected a path-separator violation, got {:?}", other),
    }
}

#[test]
fn test_unresolved_variable_aborts_before_any_output() {
    // the failing entry yields no output file at all
    let d = dict_of(&[("name1", "World")]);
    let entries = vec![Entry::File {
        name: "{{name}}.txt".to_string(),
        content: "Hello,{{name}}".to_string(),
    }];
    assert_eq!(
        handle_directory(entries, &Vec::new(), &String::new(), &d),
        Err(Error::VariableNotFound("name".to_string()))
    );
}

#[test]
fn test_walk_is_sorted_and_depth_first() {
    let d = dict_of(&[]);
    let entries = vec![
        Entry::File {
            name: "z.txt".to_string(),
            content: "z".to_string(),
        },
        Entry::Dir {
            name: "a".to_string(),
            entries: vec![Entry::File {
                name: "c.txt".to_string(),
                content: "c".to_string(),
            }],
        },
        Entry::File {
            name: "b.txt".to_string(),
            content: "b".to_string(),
        },
    ];
    let out = handle_directory(entries, &Vec::new(), &String::new(), &d).unwrap();
    let names: Vec<&str> = out.iter().map(|f| f.name.as_str()).collect();
    assert_eq!(names, vec!["c.txt", "b.txt", "z.txt"]);
    assert_eq!(out[0].dirs, vec!["a".to_string()]);
}

fn shuffled_tree(flip: bool) -> Vec<Entry> {
    let file_b = || Entry::File {
        name: "b.txt".to_string(),
        content: "{{name}}".to_string(),
    };
    let dir_a = || Entry::Dir {
        name: "a".to_string(),
        entries: vec![Entry::File {
            name: "c.txt".to_string(),
            content: "c".to_string(),
        }],
    };
    if flip {
        vec![file_b(), dir_a()]
    } else {
        vec![dir_a(), file_b()]
    }
}

#[test]
fn test_determinism_independent_of_listing_order() {
    // the lexicographic sort makes the planned outputs independent of the
    // order the entries were handed in
    let d = dict_of(&[("name", "World")]);
    let out1 = handle_directory(shuffled_tree(false), &Vec::new(), &String::new(), &d).unwrap();
    let out2 = handle_directory(shuffled_tree(true), &Vec::new(), &String::new(), &d).unwrap();
    assert_eq!(out1, out2);
}

#[test]
fn test_dir_segments_render_against_dictionary() {
    // a directory segment with an unbound variable fails, naming it
    let d = dict_of(&[("name", "World")]);
    let dirs = vec![Segment::Name("{{missing}}".to_string())];
    let r = handle_file(
        &dirs,
        &"{{missing}}".to_string(),
        &"{{name}}.txt".to_string(),
        &Some("Hello".to_string()),
        &d,
    );
    assert_eq!(r, Err(Error::VariableNotFound("missing".to_string())));
}
