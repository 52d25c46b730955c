use zb::names::{base_of, normalized_name, starts_with, text_is};

fn name(words: &[&str]) -> String {
    let argv: Vec<String> = words.iter().map(|w| w.to_string()).collect();
    normalized_name(&argv)
}

#[test]
fn a_plain_command_is_named_by_its_first_argument() {
    assert_eq!(name(&["/bin/true"]), "/bin/true");
    assert_eq!(name(&["gcc", "-O2", "main.c"]), "gcc");
    assert_eq!(name(&["./envelope", "x"]), "./envelope");
    assert_eq!(name(&[]), "");
}

#[test]
fn a_wrapper_is_named_with_what_it_wraps() {
    assert_eq!(name(&["env", "make", "all"]), "env make");
    assert_eq!(name(&["/usr/bin/env", "-i", "make"]), "/usr/bin/env make");
    assert_eq!(name(&["time", "-v", "ls", "-l"]), "time ls");
    assert_eq!(name(&["zig", "build"]), "zig build");
    assert_eq!(name(&["python3", "-u", "script.py", "arg"]), "python3 script.py");
    assert_eq!(name(&["/usr/bin/python3.12", "tool.py"]), "/usr/bin/python3.12 tool.py");
    assert_eq!(name(&["bash", "run.sh", "x"]), "bash run.sh");
}

#[test]
fn capital_c_takes_its_argument_along() {
    assert_eq!(name(&["cargo", "-C", "some/dir", "build"]), "cargo build");
    assert_eq!(name(&["cargo", "-C", "some/dir"]), "cargo ");
    assert_eq!(name(&["cargo", "-C"]), "cargo ");
    assert_eq!(name(&["cargo", "-c", "some/dir", "build"]), "cargo some/dir");
}

#[test]
fn a_shell_with_a_script_is_named_by_its_base_name() {
    assert_eq!(name(&["/bin/sh", "-c", "sleep 0.05"]), "sh");
    assert_eq!(name(&["sh", "-c", "/bin/false"]), "sh");
    assert_eq!(name(&["/usr/bin/bash", "-e", "-c", "true"]), "bash");
    // Only a shell treats -c so.
    assert_eq!(name(&["env", "-c", "x"]), "env x");
}

#[test]
fn a_wrapper_without_anything_wrapped_keeps_a_blank() {
    assert_eq!(name(&["env"]), "env ");
    assert_eq!(name(&["sh", "-e", "-x"]), "sh ");
}

#[test]
fn the_wrapped_argument_is_taken_as_it_stands() {
    assert_eq!(name(&["env", "make all"]), "env make all");
    assert_eq!(name(&["env", ""]), "env ");
    assert_eq!(name(&["time", "-p", " x "]), "time  x ");
}

#[test]
fn base_name_is_what_follows_the_last_slash() {
    assert_eq!(base_of("/usr/bin/env"), "env");
    assert_eq!(base_of("env"), "env");
    assert_eq!(base_of("dir/"), "");
    assert_eq!(base_of("/"), "");
    assert_eq!(base_of(""), "");
    assert_eq!(base_of("a/b/c"), "c");
}

#[test]
fn texts_are_compared_character_by_character() {
    assert!(text_is("-c", "-c"));
    assert!(!text_is("-c", "-C"));
    assert!(!text_is("-c", "-cc"));
    assert!(text_is("", ""));
    assert!(starts_with("python3.12", "python"));
    assert!(starts_with("python", "python"));
    assert!(!starts_with("pytho", "python"));
    assert!(!starts_with("cpython", "python"));
    assert!(starts_with("anything", ""));
}
