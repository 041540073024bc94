//! Tests of the directory core: parsing, the store, the executor, and
//! the behaviour the library promises across calls.

use employee_directory::directory::Directory;
use employee_directory::executor::execute;
use employee_directory::parser::{parse, Command};

fn run(dir: &mut Directory, line: &str) -> String {
    let cmd = parse(line);
    execute(&cmd, dir)
}

fn listing_of(dir: &Directory) -> Vec<(String, Vec<String>)> {
    dir.list_all()
}

#[test]
fn parse_add() {
    assert_eq!(
        parse("Add Sally to Engineering"),
        Command::Add { name: "Sally".to_string(), department: "Engineering".to_string() }
    );
}

#[test]
fn parse_list_department() {
    assert_eq!(
        parse("List Engineering"),
        Command::ListDepartment { department: "Engineering".to_string() }
    );
}

#[test]
fn parse_list_all() {
    assert_eq!(parse("List All"), Command::ListAll);
}

#[test]
fn parse_collapses_whitespace_runs() {
    assert_eq!(
        parse("  Add   Amir \t to  Sales \n"),
        Command::Add { name: "Amir".to_string(), department: "Sales".to_string() }
    );
}

#[test]
fn parse_accepts_reserved_words_as_tokens() {
    // Any non-whitespace token is accepted, even command keywords.
    assert_eq!(
        parse("Add to to to"),
        Command::Add { name: "to".to_string(), department: "to".to_string() }
    );
    assert_eq!(
        parse("List Add"),
        Command::ListDepartment { department: "Add".to_string() }
    );
}

#[test]
fn parse_missing_to_is_invalid() {
    assert_eq!(
        parse("Add Sally Engineering"),
        Command::Invalid { line: "Add Sally Engineering".to_string() }
    );
}

#[test]
fn parse_empty_and_garbage_are_invalid() {
    assert_eq!(parse(""), Command::Invalid { line: "".to_string() });
    assert_eq!(
        parse("Bogus input here"),
        Command::Invalid { line: "Bogus input here".to_string() }
    );
    assert_eq!(
        parse("Add Sally to Engineering now"),
        Command::Invalid { line: "Add Sally to Engineering now".to_string() }
    );
}

#[test]
fn add_confirms() {
    let mut dir = Directory::new();
    assert_eq!(run(&mut dir, "Add Sally to Engineering"), "Added Sally to Engineering");
}

#[test]
fn idempotent_reads() {
    let mut dir = Directory::new();
    run(&mut dir, "Add Sally to Engineering");
    run(&mut dir, "Add Amir to Sales");
    let first = dir.list_department("Engineering").unwrap();
    let second = dir.list_department("Engineering").unwrap();
    assert_eq!(first, second);
    let all_first = dir.list_all();
    let all_second = dir.list_all();
    assert_eq!(all_first, all_second);
}

#[test]
fn append_only_no_dedup() {
    let mut dir = Directory::new();
    run(&mut dir, "Add Sally to Eng");
    run(&mut dir, "Add Sally to Eng");
    assert_eq!(
        dir.list_department("Eng").unwrap(),
        vec!["Sally".to_string(), "Sally".to_string()]
    );
}

#[test]
fn sort_correctness_regardless_of_insertion_order() {
    let names = ["Mo", "Alice", "Zed", "Kim", "Bea"];
    let mut dir1 = Directory::new();
    for n in names {
        dir1.add_employee(n, "D");
    }
    let mut dir2 = Directory::new();
    for n in names.iter().rev() {
        dir2.add_employee(n, "D");
    }
    let expected = vec![
        "Alice".to_string(),
        "Bea".to_string(),
        "Kim".to_string(),
        "Mo".to_string(),
        "Zed".to_string(),
    ];
    assert_eq!(dir1.list_department("D").unwrap(), expected);
    assert_eq!(dir2.list_department("D").unwrap(), expected);
}

#[test]
fn global_ordering() {
    let mut dir = Directory::new();
    run(&mut dir, "Add Zoe to Sales");
    run(&mut dir, "Add Amir to Sales");
    run(&mut dir, "Add Pat to Engineering");
    run(&mut dir, "Add Sally to Engineering");
    run(&mut dir, "Add Bo to Accounting");
    let all = dir.list_all();
    let departments: Vec<&str> = all.iter().map(|p| p.0.as_str()).collect();
    assert_eq!(departments, vec!["Accounting", "Engineering", "Sales"]);
    for (_, employees) in &all {
        let mut sorted = employees.clone();
        sorted.sort();
        assert_eq!(employees, &sorted);
    }
    assert_eq!(all[2].1, vec!["Amir".to_string(), "Zoe".to_string()]);
}

#[test]
fn unknown_department_not_found() {
    let mut dir = Directory::new();
    run(&mut dir, "Add Sally to Engineering");
    let before = listing_of(&dir);
    assert!(dir.list_department("Ghost").is_err());
    assert_eq!(run(&mut dir, "List Ghost"), "No such department");
    assert_eq!(listing_of(&dir), before);
}

#[test]
fn malformed_command_rejected_without_mutation() {
    let mut dir = Directory::new();
    run(&mut dir, "Add Sally to Engineering");
    let before = listing_of(&dir);
    let cmd = parse("Add Sally Engineering");
    assert!(matches!(cmd, Command::Invalid { .. }));
    assert_eq!(execute(&cmd, &mut dir), "Invalid command");
    assert_eq!(listing_of(&dir), before);
}

#[test]
fn list_all_on_empty_directory_is_empty() {
    let mut dir = Directory::new();
    assert!(dir.list_all().is_empty());
    assert_eq!(run(&mut dir, "List All"), "");
}

#[test]
fn end_to_end_scenario() {
    let mut dir = Directory::new();
    assert_eq!(run(&mut dir, "Add Sally to Engineering"), "Added Sally to Engineering");
    assert_eq!(run(&mut dir, "Add Amir to Sales"), "Added Amir to Sales");
    assert_eq!(run(&mut dir, "Add Pat to Engineering"), "Added Pat to Engineering");
    assert_eq!(run(&mut dir, "List Engineering"), "Engineering:\n    Pat\n    Sally");
    assert_eq!(
        run(&mut dir, "List All"),
        "Engineering:\n    Pat\n    Sally\nSales:\n    Amir"
    );
    assert_eq!(run(&mut dir, "List Nowhere"), "No such department");
    assert_eq!(run(&mut dir, "Bogus input here"), "Invalid command");
}
