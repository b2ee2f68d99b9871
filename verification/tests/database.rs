use compdb::db::{load_entries, save_entries, Database, LoadError};
use compdb::entry::{Entries, Entry};
use compdb::format::DatabaseFormat;
use compdb::json::{parse_db_text, parse_record_text, render_db};
use compdb::shell::{join, split};
use compdb::wire::{from, into, GenericEntry};

fn entry(directory: &str, file: &str, command: &[&str], output: Option<&str>) -> Entry {
    Entry {
        directory: directory.as_bytes().to_vec(),
        file: file.as_bytes().to_vec(),
        command: command.iter().map(|s| s.to_string()).collect(),
        output: output.map(|s| s.as_bytes().to_vec()),
    }
}

#[test]
fn test_load_arguments() {
    let input = r#"{
                "directory": "/build/dir/path",
                "file": "/path/to/source/file.c",
                "arguments": ["cc", "-c", "/path/to/source/file.c"]
            }"#;

    let entry: GenericEntry = parse_record_text(input).unwrap();
    println!("{:?}", entry);
}

#[test]
fn test_save_arguments() {
    let entry_one = GenericEntry::ArrayEntry {
        directory: "/build/dir/path".to_string(),
        file: "/path/to/source.c".to_string(),
        arguments: vec!["cc".to_string(), "-c".to_string()],
        output: None,
    };
    let entry_two = GenericEntry::StringEntry {
        directory: "/build/dir/path".to_string(),
        file: "/path/to/source.c".to_string(),
        command: "cc -c /path/to/source.c -o /build/dir/path/source.o".to_string(),
        output: Some("/build/dir/path/source.o".to_string()),
    };
    let inputs = vec![entry_one, entry_two];

    let output = render_db(&inputs);
    println!("{}", output);
}

#[test]
fn shell_round_trip_with_space() {
    let argv = vec!["cc".to_string(), "-c".to_string(), "a b.c".to_string()];
    let joined = join(&argv);
    let back = split(joined.as_str()).unwrap();
    assert_eq!(back, argv);
}

#[test]
fn shell_round_trip_odd_words() {
    let argv = vec![
        "".to_string(),
        "it's".to_string(),
        "a\"b".to_string(),
        "tab\there".to_string(),
        "new\nline".to_string(),
        "-DNAME=va lue".to_string(),
    ];
    let joined = join(&argv);
    let back = split(joined.as_str()).unwrap();
    assert_eq!(back, argv);
}

#[test]
fn shell_join_plain_words_uses_spaces() {
    let argv = vec!["cc".to_string(), "-c".to_string(), "a.c".to_string()];
    assert_eq!(join(&argv), "cc -c a.c");
}

#[test]
fn shell_split_quoted_forms() {
    let words = split("cc -c 'a b.c' \"d e\"").unwrap();
    assert_eq!(words, vec!["cc", "-c", "a b.c", "d e"]);
}

#[test]
fn shell_split_unbalanced_quote_fails() {
    assert!(split("cc 'oops").is_none());
    assert!(split("cc \"oops").is_none());
    assert!(split("cc oops\\").is_none());
}

#[test]
fn identity_ignores_output() {
    let a = entry("/build", "/build/a.c", &["cc", "-c", "a.c"], Some("/build/a.o"));
    let b = entry("/build", "/build/a.c", &["cc", "-c", "a.c"], Some("/build/other.o"));
    assert!(a == b);

    let mut set = Entries::new();
    set.insert(a);
    set.insert(b);
    assert_eq!(set.len(), 1);
    // first write wins: the output of the first entry stays
    assert_eq!(set.get(0).output, Some(b"/build/a.o".to_vec()));
}

#[test]
fn entries_differing_in_command_both_stay() {
    let a = entry("/build", "/build/a.c", &["cc", "-c", "a.c"], None);
    let b = entry("/build", "/build/a.c", &["cc", "-O2", "-c", "a.c"], None);
    assert!(a != b);
    let mut set = Entries::new();
    set.insert(a);
    set.insert(b);
    assert_eq!(set.len(), 2);
}

#[test]
fn save_load_round_trip_array_form() {
    let mut set = Entries::new();
    set.insert(entry("/build", "/build/a.c", &["cc", "-c", "a b.c"], Some("/build/a.o")));
    set.insert(entry("/build", "/build/b.c", &["cc", "-c", "b.c"], None));

    let format = DatabaseFormat::new();
    let text = save_entries(&set, &format).ok().unwrap();
    let loaded = load_entries(text.as_str()).ok().unwrap();

    assert_eq!(loaded.len(), set.len());
    assert!(loaded.contains(set.get(0)));
    assert!(loaded.contains(set.get(1)));
}

#[test]
fn save_load_round_trip_string_form() {
    let mut set = Entries::new();
    set.insert(entry("/build", "/build/a.c", &["cc", "-c", "a b.c"], Some("/build/a.o")));
    set.insert(entry("/build", "/build/b.c", &["cc", "-c", "b.c"], None));

    let mut format = DatabaseFormat::new();
    format.set_command_as_array(false);
    let text = save_entries(&set, &format).ok().unwrap();
    let loaded = load_entries(text.as_str()).ok().unwrap();

    assert_eq!(loaded.len(), set.len());
    assert!(loaded.contains(set.get(0)));
    assert!(loaded.contains(set.get(1)));
}

#[test]
fn path_encoding_failure_names_the_path() {
    let bad = Entry {
        directory: vec![0xff, 0xfe, b'/'],
        file: b"/build/a.c".to_vec(),
        command: vec!["cc".to_string()],
        output: None,
    };
    let mut set = Entries::new();
    set.insert(bad);
    let format = DatabaseFormat::new();
    match save_entries(&set, &format) {
        Ok(_) => panic!("a path that is not UTF-8 must fail the save"),
        Err(e) => assert_eq!(e.path, vec![0xff, 0xfe, b'/']),
    }
}

#[test]
fn aggregate_load_failure_returns_no_entries() {
    let text = r#"[
  {
    "directory": "/build",
    "file": "/build/a.c",
    "command": "cc -c a.c"
  },
  {
    "directory": "/build",
    "file": "/build/b.c",
    "command": "cc 'unbalanced"
  }
]"#;
    match load_entries(text) {
        Ok(_) => panic!("a malformed command must fail the whole load"),
        Err(LoadError::Json) => panic!("the document itself is well-formed"),
        Err(LoadError::Conversion { message }) => {
            assert!(message.contains("cc 'unbalanced"));
        }
    }
}

#[test]
fn aggregate_load_failure_joins_messages() {
    let text = r#"[
  {"directory": "/b", "file": "/b/a.c", "command": "cc 'one"},
  {"directory": "/b", "file": "/b/b.c", "command": "cc \"two"}
]"#;
    match load_entries(text) {
        Err(LoadError::Conversion { message }) => {
            assert!(message.contains("cc 'one"));
            assert!(message.contains("cc \"two"));
            assert!(message.contains(", "));
        }
        _ => panic!("both records are malformed"),
    }
}

#[test]
fn output_omitted_when_absent() {
    let mut set = Entries::new();
    set.insert(entry("/build", "/build/a.c", &["cc", "-c", "a.c"], None));
    let format = DatabaseFormat::new();
    let text = save_entries(&set, &format).ok().unwrap();
    assert!(!text.contains("output"));

    let recs = parse_db_text(text.as_str()).unwrap();
    assert_eq!(recs.len(), 1);
    match &recs[0] {
        GenericEntry::ArrayEntry { directory, file, arguments, output } => {
            assert_eq!(directory.as_str(), "/build");
            assert_eq!(file.as_str(), "/build/a.c");
            assert_eq!(arguments, &vec!["cc", "-c", "a.c"]);
            assert!(output.is_none());
        }
        _ => panic!("array form was selected"),
    }
}

#[test]
fn string_form_encodes_one_command() {
    let mut set = Entries::new();
    set.insert(entry("/build", "/build/a.c", &["cc", "-c", "a.c"], None));
    let mut format = DatabaseFormat::new();
    format.set_command_as_array(false);
    let text = save_entries(&set, &format).ok().unwrap();

    let recs = parse_db_text(text.as_str()).unwrap();
    assert_eq!(recs.len(), 1);
    match &recs[0] {
        GenericEntry::StringEntry { directory, file, command, output } => {
            assert_eq!(directory.as_str(), "/build");
            assert_eq!(file.as_str(), "/build/a.c");
            assert_eq!(command.as_str(), "cc -c a.c");
            assert!(output.is_none());
        }
        _ => panic!("string form was selected"),
    }
}

#[test]
fn format_defaults_to_array() {
    let format = DatabaseFormat::new();
    assert!(format.is_command_as_array());
    let mut format = format;
    format.set_command_as_array(false);
    assert!(!format.is_command_as_array());
}

#[test]
fn database_remembers_its_path() {
    let db = Database::new(b"/tmp/compile_commands.json".to_vec());
    assert_eq!(db.path(), &b"/tmp/compile_commands.json".to_vec());
}

#[test]
fn load_rejects_malformed_json() {
    assert!(matches!(load_entries("not json at all"), Err(LoadError::Json)));
    assert!(matches!(load_entries("[{\"directory\": 5}]"), Err(LoadError::Json)));
    assert!(matches!(load_entries("[{\"directory\": \"/b\"}]"), Err(LoadError::Json)));
    assert!(matches!(load_entries("{}"), Err(LoadError::Json)));
    assert!(matches!(load_entries(""), Err(LoadError::Json)));
    // a record may not carry both shapes at once, nor unknown keys
    assert!(matches!(
        load_entries(
            "[{\"directory\": \"/b\", \"file\": \"a\", \"command\": \"cc\", \"arguments\": [\"cc\"]}]"
        ),
        Err(LoadError::Json)
    ));
    assert!(matches!(
        load_entries("[{\"directory\": \"/b\", \"file\": \"a\", \"command\": \"cc\", \"extra\": \"x\"}]"),
        Err(LoadError::Json)
    ));
}

#[test]
fn load_accepts_either_shape_in_one_file() {
    let text = r#"[
  {"file": "/b/a.c", "directory": "/b", "arguments": ["cc", "-c", "a.c"]},
  {"directory": "/b", "command": "cc -c b.c", "file": "/b/b.c", "output": "/b/b.o"}
]"#;
    let set = load_entries(text).ok().unwrap();
    assert_eq!(set.len(), 2);
    assert!(set.contains(&entry("/b", "/b/a.c", &["cc", "-c", "a.c"], None)));
    assert!(set.contains(&entry("/b", "/b/b.c", &["cc", "-c", "b.c"], None)));
    assert_eq!(set.get(1).output, Some(b"/b/b.o".to_vec()));
}

#[test]
fn load_decodes_json_escapes() {
    let text = "[{\"directory\": \"\\u0041\\n\\t\\\"\", \"file\": \"\\ud83d\\ude00\", \"arguments\": [\"cc\"]}]";
    let set = load_entries(text).ok().unwrap();
    assert_eq!(set.len(), 1);
    assert_eq!(set.get(0).directory, "A\n\t\"".as_bytes().to_vec());
    assert_eq!(set.get(0).file, "\u{1F600}".as_bytes().to_vec());
}

#[test]
fn save_escapes_what_it_must() {
    let mut set = Entries::new();
    set.insert(entry("/bu\"ild", "/a\nb.c", &["cc", "-c", "a.c"], None));
    let format = DatabaseFormat::new();
    let text = save_entries(&set, &format).ok().unwrap();
    let loaded = load_entries(text.as_str()).ok().unwrap();
    assert_eq!(loaded.len(), 1);
    assert_eq!(loaded.get(0).directory, b"/bu\"ild".to_vec());
    assert_eq!(loaded.get(0).file, b"/a\nb.c".to_vec());
}

#[test]
fn non_ascii_paths_survive() {
    let mut set = Entries::new();
    set.insert(entry("/b\u{00e9}ta", "/b\u{00e9}ta/caf\u{00e9}.c", &["cc"], None));
    let format = DatabaseFormat::new();
    let text = save_entries(&set, &format).ok().unwrap();
    let loaded = load_entries(text.as_str()).ok().unwrap();
    assert!(loaded.contains(set.get(0)));
}

#[test]
fn from_and_into_are_inverse_on_one_entry() {
    let e = entry("/build", "/build/a.c", &["cc", "-c", "a b.c"], Some("/build/a.o"));
    let mut format = DatabaseFormat::new();
    format.set_command_as_array(false);
    let wire = from(&e, &format).ok().unwrap();
    match &wire {
        GenericEntry::StringEntry { command, .. } => {
            assert_eq!(command.as_str(), "cc -c a\\ b.c");
        }
        _ => panic!("string form was selected"),
    }
    let back = into(&wire).ok().unwrap();
    assert!(back == e);
    assert_eq!(back.output, Some(b"/build/a.o".to_vec()));
}

#[test]
fn into_reports_the_malformed_command() {
    let wire = GenericEntry::StringEntry {
        directory: "/b".to_string(),
        file: "/b/a.c".to_string(),
        command: "cc 'open".to_string(),
        output: None,
    };
    match into(&wire) {
        Ok(_) => panic!("an unbalanced quote must fail the conversion"),
        Err(err) => assert_eq!(err.message, "cannot split command: cc 'open"),
    }
}

#[test]
fn empty_database_round_trips() {
    let set = Entries::new();
    let format = DatabaseFormat::new();
    let text = save_entries(&set, &format).ok().unwrap();
    assert_eq!(text, "[]");
    let loaded = load_entries(text.as_str()).ok().unwrap();
    assert_eq!(loaded.len(), 0);
}
