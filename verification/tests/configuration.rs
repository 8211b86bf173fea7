use fstar_mcp::fstar::config::decode_config;
use fstar_mcp::fstar::discovery::{
    absolute_path, config_directories, config_from_makefile, executable_candidates,
    executable_paths, has_path_separator, make_target, parse_config_file, pick_config_file,
    resolve_executable, ConfigFile, ConfigSearch, DiscoveryFacts, Platform,
};
use fstar_mcp::fstar::environment::{
    is_env_name, is_env_name_continue, is_env_name_start, substitute_env_vars, Environment,
};
use fstar_mcp::fstar::shell::{shell_split, split_make_options};
use fstar_mcp::fstar::{ConfigError, FStarConfig};
use fstar_mcp::json;
use fstar_mcp::locations::{self, Style};
use fstar_mcp::order;

fn strings(list: &[&str]) -> Vec<String> {
    list.iter().map(|item| item.to_string()).collect()
}

fn environment(variables: &[(&str, Option<&str>)]) -> Environment {
    Environment {
        style: Style::Unix,
        variables: variables
            .iter()
            .map(|(name, value)| (name.to_string(), value.map(|text| text.to_string())))
            .collect(),
    }
}

fn facts(config_file: Option<(&str, &str)>, make_output: Option<&str>) -> DiscoveryFacts {
    DiscoveryFacts {
        platform: Platform::Unix,
        current_dir: Ok("/home".to_string()),
        environment: environment(&[("ROOT", Some("/work")), ("BROKEN", None)]),
        config_file: config_file.map(|(path, contents)| ConfigFile {
            path: path.to_string(),
            contents: Ok(contents.to_string()),
        }),
        make_output: make_output.map(|text| text.to_string()),
        search_path: Some(strings(&["/usr/bin", "/opt/fstar"])),
        executables: strings(&["/opt/fstar/fstar.exe", "/opt/own/fstar"]),
    }
}

fn executable_override() -> FStarConfig {
    FStarConfig {
        fstar_exe: Some("/opt/own/fstar".to_string()),
        ..FStarConfig::default()
    }
}

#[test]
fn test_default_config() {
    let config = FStarConfig::default();
    assert_eq!(config.fstar_exe(), "fstar.exe");
    assert!(config.include_dirs.is_empty());
    assert!(config.options.is_empty());
}

#[test]
fn test_build_args() {
    let config = FStarConfig {
        include_dirs: vec!["/path/to/lib".to_string()],
        options: vec!["--cache_dir".to_string(), ".cache".to_string()],
        fstar_exe: Some("fstar".to_string()),
        cwd: Some("/project".to_string()),
    };

    let args = config.build_args("/path/to/Test.fst", false);
    assert_eq!(args[0], "--ide");
    assert_eq!(args[1], "/path/to/Test.fst");
    assert!(args.contains(&"--include".to_string()));
    assert!(args.contains(&"/path/to/lib".to_string()));
    assert!(args.contains(&"--cache_dir".to_string()));
}

#[test]
fn test_build_args_lax() {
    let config = FStarConfig::default();
    let args = config.build_args("Test.fst", true);
    assert!(args.contains(&"--admit_smt_queries".to_string()));
    assert!(args.contains(&"true".to_string()));
}

#[test]
fn arguments_stand_in_order() {
    let config = FStarConfig {
        include_dirs: strings(&["a", "b"]),
        options: strings(&["--x"]),
        fstar_exe: None,
        cwd: None,
    };
    assert_eq!(
        config.build_args("T.fst", true),
        strings(&[
            "--ide", "T.fst", "--admit_smt_queries", "true", "--x", "--include", "a", "--include",
            "b"
        ])
    );
    assert_eq!(
        config.dependency_args("T.fst"),
        strings(&["--dep", "full", "--x", "--include", "a", "--include", "b", "T.fst"])
    );
    assert_eq!(config.cwd_or("/here"), "/here");
}

#[test]
fn shell_split_supports_quotes_backslashes_and_empty_words() {
    let words = shell_split(r#"one 'two three' "four five" six\ seven "" ''"#).unwrap();
    assert_eq!(
        words,
        ["one", "two three", "four five", "six seven", "", ""]
    );
}

#[test]
fn shell_split_rejects_unfinished_input() {
    assert!(matches!(
        shell_split("'unfinished"),
        Err(ConfigError::InvalidMakeOutput(_))
    ));
    assert!(matches!(
        shell_split("unfinished\\"),
        Err(ConfigError::InvalidMakeOutput(_))
    ));
}

#[test]
fn make_options_separate_include_pairs() {
    let words = shell_split(r#"--foo "two words" --include "lib one" --include lib\ two"#).unwrap();
    let (options, includes) = split_make_options(words).unwrap();
    assert_eq!(options, ["--foo", "two words"]);
    assert_eq!(includes, ["lib one", "lib two"]);
}

#[test]
fn include_without_directory_is_refused() {
    let error = split_make_options(strings(&["--x", "--include"])).unwrap_err();
    assert!(matches!(error, ConfigError::InvalidMakeOutput(_)));
}

#[test]
fn quoted_words_are_read_back() {
    let words = shell_split(r"'a b' 'c'").unwrap();
    assert_eq!(words, ["a b", "c"]);
}

#[test]
fn names_of_variables() {
    assert!(is_env_name("HOME_2"));
    assert!(!is_env_name("2HOME"));
    assert!(!is_env_name(""));
    assert!(is_env_name_start('_'));
    assert!(!is_env_name_start('7'));
    assert!(is_env_name_continue('7'));
    assert!(!is_env_name_continue('-'));
}

#[test]
fn variables_are_expanded() {
    let known = environment(&[("A", Some("one")), ("AB", Some("two"))]);
    assert_eq!(
        substitute_env_vars("${A}/$AB-$$", "f", &known).unwrap(),
        "one/two-$$"
    );
    assert_eq!(substitute_env_vars("plain", "f", &known).unwrap(), "plain");
}

#[test]
fn names_of_variables_ignore_case_on_windows() {
    let mut known = environment(&[("Path", Some("C:\\bin")), ("PATH_2", Some("no"))]);
    assert!(matches!(
        substitute_env_vars("$PATH", "f", &known),
        Err(ConfigError::MissingEnvironmentVariable { .. })
    ));
    known.style = Style::Windows;
    assert_eq!(
        substitute_env_vars("$PATH;${path}", "f", &known).unwrap(),
        "C:\\bin;C:\\bin"
    );
    assert!(matches!(
        substitute_env_vars("$PAT", "f", &known),
        Err(ConfigError::MissingEnvironmentVariable { .. })
    ));
}

#[test]
fn discovers_nearest_config_and_substitutes_environment_recursively() {
    let directories =
        config_directories(Style::Unix, "/work/src/nested/Test.fst", Some("/work"), &Ok("/".to_string()))
            .unwrap();
    assert_eq!(
        directories,
        strings(&["/work/src/nested", "/work/src", "/work"])
    );
    assert_eq!(
        pick_config_file(
            Style::Unix,
            "/work/src/nested",
            &strings(&["z.fst.config.json", "nearest.fst.config.json", "x.json"])
        ),
        Some("/work/src/nested/nearest.fst.config.json".to_string())
    );
    let mut search = ConfigSearch::new(
        Style::Unix,
        "/work/src/nested/Test.fst",
        Some("/work"),
        &Ok("/".to_string()),
    )
    .unwrap();
    assert_eq!(search.next_directory(), Some("/work/src/nested".to_string()));
    assert_eq!(
        search.add_names(&strings(&["nearest.fst.config.json"])),
        Some("/work/src/nested/nearest.fst.config.json".to_string())
    );
    let found = facts(
        Some((
            "/work/src/nested/nearest.fst.config.json",
            r#"{"include_dirs":["${ROOT}/lib"],"options":["$ROOT"],"fstar_exe":"/opt/own/fstar"}"#,
        )),
        None,
    );
    let config = FStarConfig::discover("/work/src/nested/Test.fst", &found).unwrap();
    assert_eq!(config.include_dirs, ["/work/lib"]);
    assert_eq!(config.options, ["/work"]);
    assert_eq!(config.cwd, Some("/work/src/nested".to_string()));
    assert_eq!(config.fstar_exe, Some("/opt/own/fstar".to_string()));
}

/// The configuration that is found where the directories hold the given files.
fn searched(directories: &[(&str, &[&str])]) -> (Vec<String>, Option<String>) {
    let mut search = ConfigSearch::new(
        Style::Unix,
        "/work/src/nested/Test.fst",
        Some("/work"),
        &Ok("/".to_string()),
    )
    .unwrap();
    let mut visited = Vec::new();
    while let Some(directory) = search.next_directory() {
        let names = directories
            .iter()
            .find(|(name, _)| *name == directory)
            .map(|(_, names)| strings(names))
            .unwrap_or_default();
        visited.push(directory);
        if let Some(path) = search.add_names(&names) {
            return (visited, Some(path));
        }
    }
    (visited, None)
}

#[test]
fn outer_configurations_are_passed_over() {
    let outer = ("/work", ["outer.fst.config.json"].as_slice());
    let nearest = (
        "/work/src",
        ["z.fst.config.json", "notes.txt", "b.fst.config.json"].as_slice(),
    );
    assert_eq!(
        searched(&[outer, nearest]),
        (
            strings(&["/work/src/nested", "/work/src"]),
            Some("/work/src/b.fst.config.json".to_string())
        )
    );
    assert_eq!(
        searched(&[outer]).1,
        Some("/work/outer.fst.config.json".to_string())
    );
    let (visited, found) = searched(&[("/", ["root.fst.config.json"].as_slice())]);
    assert_eq!(visited, strings(&["/work/src/nested", "/work/src", "/work"]));
    assert_eq!(found, None);
}

#[test]
fn missing_environment_variable_is_a_clear_error() {
    let found = facts(
        Some((
            "/work/test.fst.config.json",
            r#"{"options":["${DEFINITELY_MISSING}"]}"#,
        )),
        None,
    );
    let error = FStarConfig::discover("/work/Test.fst", &found).unwrap_err();
    assert!(matches!(
        error,
        ConfigError::MissingEnvironmentVariable { ref variable, .. } if variable == "DEFINITELY_MISSING"
    ));
    assert!(error.message().contains("DEFINITELY_MISSING"));
    assert_eq!(
        error.message(),
        "Environment variable 'DEFINITELY_MISSING' referenced by /work/test.fst.config.json is not set"
    );
}

#[test]
fn unreadable_variables_and_files_are_errors() {
    let invalid = parse_config_file(
        r#"["$BROKEN"]"#,
        "c",
        &environment(&[("BROKEN", None)]),
    )
    .unwrap_err();
    assert_eq!(
        invalid.message(),
        "Environment variable 'BROKEN' referenced by c is not valid Unicode"
    );
    let broken = parse_config_file("{", "c", &environment(&[])).unwrap_err();
    assert!(matches!(broken, ConfigError::ParseError(_)));
    assert!(broken.message().starts_with("Failed to parse config file: "));
    let mut unreadable = facts(Some(("/work/a.fst.config.json", "")), None);
    unreadable.config_file = Some(ConfigFile {
        path: "/work/a.fst.config.json".to_string(),
        contents: Err("denied".to_string()),
    });
    let error = FStarConfig::discover("/work/Test.fst", &unreadable).unwrap_err();
    assert_eq!(error.message(), "Failed to read config file: denied");
}

#[test]
fn workspace_root_prevents_searching_higher_parents() {
    let directories =
        config_directories(Style::Unix, "/top/workspace/Test.fst", Some("/top/workspace"), &Ok("/".to_string()))
            .unwrap();
    assert_eq!(directories, strings(&["/top/workspace"]));
    assert!(
        config_directories(Style::Unix, "/other/Test.fst", Some("/top/workspace"), &Ok("/".to_string()))
            .unwrap()
            .is_empty()
    );
    let config = FStarConfig::discover_with_overrides(
        "/top/workspace/Test.fst",
        &facts(None, None),
        &executable_override(),
    )
    .unwrap();
    assert!(config.options.is_empty());
    assert_eq!(config.cwd, Some("/top/workspace".to_string()));
}

#[test]
fn falls_back_to_make_and_parses_shell_like_output() {
    assert_eq!(make_target(Style::Unix, "/p/Sample.fst"), Some("Sample.fst-in".to_string()));
    let found = facts(
        None,
        Some("--foo \"two words\" --include \"lib one\" --include lib\\ two\n"),
    );
    let config =
        FStarConfig::discover_with_overrides("/p/Sample.fst", &found, &executable_override())
            .unwrap();
    assert_eq!(config.options, ["--foo", "two words"]);
    assert_eq!(config.include_dirs, ["lib one", "lib two"]);
    assert_eq!(config.cwd, Some("/p".to_string()));
    assert!(config_from_makefile(Style::Unix, "/p/Sample.fst", &None).unwrap().is_none());
}

#[test]
fn uses_bare_defaults_when_config_and_make_are_absent() {
    let config = FStarConfig::discover_with_overrides(
        "/p/NoMakefile.fst",
        &facts(None, None),
        &executable_override(),
    )
    .unwrap();
    assert!(config.options.is_empty());
    assert!(config.include_dirs.is_empty());
    assert_eq!(config.cwd, Some("/p".to_string()));
}

#[test]
fn explicit_nonempty_overrides_replace_discovered_values() {
    let found = facts(
        Some((
            "/p/test.fst.config.json",
            r#"{"include_dirs":["discovered-lib"],"options":["--discovered"],"fstar_exe":"missing-discovered-executable"}"#,
        )),
        None,
    );
    let overrides = FStarConfig {
        include_dirs: Vec::new(),
        options: vec!["--override".to_string()],
        fstar_exe: Some("/opt/own/fstar".to_string()),
        cwd: Some("/q".to_string()),
    };
    let config = FStarConfig::discover_with_overrides("/p/Test.fst", &found, &overrides).unwrap();

    assert_eq!(config.include_dirs, ["discovered-lib"]);
    assert_eq!(config.options, ["--override"]);
    assert_eq!(config.cwd, overrides.cwd);
    assert_eq!(config.fstar_exe, overrides.fstar_exe);
}

#[test]
fn missing_discovered_executable_falls_back_to_the_path() {
    let found = facts(
        Some(("/p/a.fst.config.json", r#"{"fstar_exe":"bin/fstar.exe"}"#)),
        None,
    );
    let config = FStarConfig::discover("/p/Test.fst", &found).unwrap();
    assert_eq!(config.fstar_exe, Some("/opt/fstar/fstar.exe".to_string()));
    assert_eq!(
        FStarConfig::replaced_executable("/p/Test.fst", &found, &FStarConfig::default()),
        Some("bin/fstar.exe".to_string())
    );
    assert_eq!(
        FStarConfig::replaced_executable("/p/Test.fst", &facts(None, None), &executable_override()),
        None
    );
    let explicit = FStarConfig {
        fstar_exe: Some("bin/fstar.exe".to_string()),
        ..FStarConfig::default()
    };
    let error =
        FStarConfig::discover_with_overrides("/p/Test.fst", &found, &explicit).unwrap_err();
    assert_eq!(
        error.message(),
        "F* executable not found: 'bin/fstar.exe' (working directory: /p)"
    );
}

#[test]
fn resolves_relative_executable_against_cwd() {
    let mut found = facts(None, None);
    found.executables = strings(&["/t/./fake-fstar"]);
    let resolved = resolve_executable("./fake-fstar", "/t", &found).unwrap();
    assert!(locations::same_path(Style::Unix, &resolved, "/t/fake-fstar"));
}

#[test]
fn resolves_bare_executable_on_supplied_path() {
    let mut found = facts(None, None);
    found.search_path = Some(strings(&["/t"]));
    found.executables = strings(&["/t/fstar-test"]);
    assert_eq!(
        resolve_executable("fstar-test", ".", &found).unwrap(),
        "/t/fstar-test"
    );
}

#[test]
fn missing_executable_has_a_clear_error() {
    let mut found = facts(None, None);
    found.search_path = Some(strings(&[""]));
    let error = resolve_executable("definitely-missing-fstar", "/project", &found).unwrap_err();
    assert!(matches!(error, ConfigError::ExecutableNotFound { .. }));
    assert!(error.message().contains("definitely-missing-fstar"));
}

#[test]
fn probes_are_the_candidates() {
    let found = facts(None, None);
    let probes = FStarConfig::discovery_probes("/p/Test.fst", &found, &FStarConfig::default());
    assert_eq!(
        probes[..2],
        strings(&["/usr/bin/fstar.exe", "/opt/fstar/fstar.exe"])[..]
    );
    assert_eq!(
        executable_paths("bin/x", "/p", &found),
        strings(&["/p/bin/x"])
    );
    assert!(has_path_separator(&Platform::Unix, "a/b"));
    assert!(!has_path_separator(&Platform::Unix, "a\\b"));
    assert_eq!(
        executable_candidates(&Platform::Unix, "/d", "x"),
        strings(&["/d/x"])
    );
}

#[test]
fn paths_are_made_absolute() {
    assert_eq!(
        absolute_path(Style::Unix, "a/b", &Ok("/c".to_string())).unwrap(),
        "/c/a/b"
    );
    let error = absolute_path(Style::Unix, "a", &Err("gone".to_string())).unwrap_err();
    assert_eq!(error.message(), "Failed to read config file: gone");
}

#[test]
fn overrides_are_idempotent() {
    let mut once = FStarConfig::default();
    let overrides = executable_override();
    once.apply_overrides(&overrides);
    let mut twice = once.copy();
    twice.apply_overrides(&overrides);
    assert_eq!(once, twice);
}

#[test]
fn configurations_are_decoded() {
    let value = json::parse(r#"{"options":["--x"],"cwd":"/c","other":1}"#).unwrap();
    let config = decode_config(&value).unwrap();
    assert_eq!(config.options, ["--x"]);
    assert_eq!(config.cwd, Some("/c".to_string()));
    let array = json::parse(r#"[["lib"],[],null,"/c"]"#).unwrap();
    assert_eq!(decode_config(&array).unwrap().include_dirs, ["lib"]);
}

#[test]
fn wrong_values_are_named() {
    for (document, fault) in [
        (
            r#"{"options":"--x"}"#,
            "invalid type: string \"--x\", expected a sequence",
        ),
        (
            r#"{"cwd":1.5,"options":3}"#,
            "invalid type: floating point `1.5`, expected a string",
        ),
        (
            r#"{"options":["--x",null]}"#,
            "invalid type: null, expected a string",
        ),
        (
            r#"{"fstar_exe":{"a":1},"other":0}"#,
            "invalid type: map, expected a string",
        ),
        ("7", "invalid type: integer `7`, expected struct FStarConfig"),
        (
            "[[],[],null,null,1]",
            "invalid length 5, expected fewer elements in array",
        ),
        ("[[],true]", "invalid type: boolean `true`, expected a sequence"),
    ] {
        let value = json::parse(document).unwrap();
        assert_eq!(decode_config(&value).unwrap_err(), fault);
        let error = parse_config_file(document, "/c", &environment(&[]));
        assert_eq!(
            error.unwrap_err().message(),
            format!("Failed to parse config file: {fault}")
        );
    }
}

fn windows() -> DiscoveryFacts {
    DiscoveryFacts {
        platform: Platform::Windows { extensions: None },
        current_dir: Ok("C:\\work".to_string()),
        search_path: Some(strings(&["C:\\bin"])),
        executables: strings(&["C:\\bin\\fstar.exe"]),
        ..facts(None, None)
    }
}

#[test]
fn drives_and_shares_are_absolute() {
    let style = Style::Windows;
    assert!(locations::is_absolute(style, "C:\\bin"));
    assert!(locations::is_absolute(style, "c:/bin"));
    assert!(locations::is_absolute(style, "\\\\server\\share"));
    assert!(!locations::is_absolute(style, "C:bin"));
    assert!(!locations::is_absolute(style, "\\bin"));
    assert!(!locations::is_absolute(style, "\\\\server"));
    assert!(!locations::is_absolute(Style::Unix, "C:/bin"));
    assert_eq!(locations::join(style, "C:\\a", "b\\c"), "C:\\a\\b\\c");
    assert_eq!(locations::join(style, "C:\\a", "\\b"), "C:\\b");
    assert_eq!(locations::join(style, "C:\\a", "D:b"), "D:b");
    assert_eq!(locations::join(style, "C:", "b"), "C:b");
    assert_eq!(locations::join(Style::Unix, "/a", "b"), "/a/b");
    assert_eq!(
        locations::parent(style, "C:\\a\\b"),
        Some("C:\\a".to_string())
    );
    assert_eq!(locations::parent(style, "C:\\a"), Some("C:\\".to_string()));
    assert_eq!(locations::parent(style, "C:\\"), None);
    assert_eq!(locations::parent(style, "\\\\s\\h"), None);
    assert_eq!(
        locations::parent(style, "\\\\s\\h\\a"),
        Some("\\\\s\\h\\".to_string())
    );
    assert_eq!(
        locations::file_name(style, "C:\\a\\B.fst"),
        Some("B.fst".to_string())
    );
    assert!(locations::same_path(style, "C:\\a/b", "C:\\a\\.\\b"));
    assert!(!locations::same_path(style, "C:\\a", "D:\\a"));
    assert!(locations::same_path(style, "C:\\a", "c:\\a"));
    assert!(!locations::same_path(style, "C:\\a", "C:\\A"));
    assert!(locations::same_path(style, "C:\\a\\", "C:/a"));
    assert!(!locations::same_path(Style::Unix, "C:\\a", "C:/a"));
    assert!(locations::is_inside(style, "C:\\a\\b", "C:\\"));
    assert!(!locations::is_inside(style, "D:\\a\\b", "C:\\a"));
}

#[test]
fn steps_from_verbatim_paths_are_followed() {
    let join = |base: &str, path: &str| locations::join(Style::Windows, base, path);
    assert_eq!(join(r"\\?\C:\p", "X/Y.fst"), r"\\?\C:\p\X\Y.fst");
    assert_eq!(join(r"\\?\C:\p\q", r"..\lib/./a"), r"\\?\C:\p\lib\a");
    assert_eq!(join(r"\\?\C:\p", "../../.."), r"\\?\C:\");
    assert_eq!(join(r"\\?\C:\p", r"\q"), r"\\?\C:\q");
    assert_eq!(join(r"\\?\C:\p", r"D:\q"), r"D:\q");
    assert_eq!(join(r"\\?\UNC\s\h\p", "../../a"), r"\\?\UNC\s\h\a");
    assert_eq!(join(r"C:\p", "../a/b"), r"C:\p\../a/b");
    assert_eq!(join("//?/C:/p", "../a"), r"//?/C:/p\../a");
}

#[test]
fn verbatim_paths_have_their_own_prefixes() {
    let style = Style::Windows;
    assert_eq!(
        locations::parent(style, r"\\?\UNC\s\h\a"),
        Some(r"\\?\UNC\s\h\".to_string())
    );
    assert_eq!(locations::parent(style, r"\\?\UNC\s\h\"), None);
    assert_eq!(locations::parent(style, r"\\?\C:\"), None);
    assert!(locations::same_path(style, r"\\?\c:\a", r"\\?\C:\a"));
    assert!(!locations::same_path(style, r"\\?\C:\a", r"C:\a"));
    assert!(!locations::same_path(style, r"\\?\C:\a", "//?/C:/a"));
    assert!(locations::is_absolute(style, r"\\?\C:\a"));
    assert_eq!(
        order::sort(
            style,
            strings(&[r"C:\a", r"\\1s\h\a", r"\\.\d\a", r"\\?\C:\a", r"\\?\UNC\s\h\a", r"\\?\v\a"])
        ),
        strings(&[r"\\?\v\a", r"\\?\UNC\s\h\a", r"\\?\C:\a", r"\\.\d\a", r"\\1s\h\a", r"C:\a"])
    );
}

#[test]
fn discovery_knows_windows() {
    let found = windows();
    assert_eq!(
        resolve_executable("fstar.exe", "C:\\work", &found).unwrap(),
        "C:\\bin\\fstar.exe"
    );
    assert_eq!(
        executable_paths("bin\\fstar.exe", "C:\\work", &found),
        strings(&["C:\\work\\bin\\fstar.exe"])
    );
    assert_eq!(
        executable_candidates(&found.platform, "C:\\bin", "fstar")[..2],
        strings(&["C:\\bin\\fstar", "C:\\bin\\fstar.COM"])[..]
    );
    let config = FStarConfig::discover("C:\\work\\src\\A.fst", &found).unwrap();
    assert_eq!(config.cwd, Some("C:\\work\\src".to_string()));
    assert_eq!(config.fstar_exe, Some("C:\\bin\\fstar.exe".to_string()));
    assert_eq!(
        config_directories(
            Style::Windows,
            "C:\\work\\src\\A.fst",
            Some("\\work"),
            &found.current_dir
        )
        .unwrap(),
        strings(&["C:\\work\\src", "C:\\work"])
    );
    assert_eq!(
        make_target(Style::Windows, "C:\\work\\A.fst"),
        Some("A.fst-in".to_string())
    );
}
