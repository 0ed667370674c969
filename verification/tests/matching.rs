use std::collections::HashMap;

use ecooff::process::Proc;
use ecooff::rule::{has_parent, matched, parse, Rule};
use ecooff::names::NameSet;

fn proc(pid: u32, parent: u32, name: &str) -> Proc {
    Proc { pid, parent, name: name.to_string() }
}

fn table(list: Vec<Proc>) -> HashMap<u32, Proc> {
    let mut m = HashMap::new();
    for p in list {
        m.insert(p.pid, p);
    }
    m
}

fn rule(text: &str) -> Rule {
    parse(text).rule
}

#[test]
fn allowed_name_matches_case_insensitively() {
    let r = rule("allow = [\"Python.exe\"]");
    let ps = table(vec![proc(10, 1, "PYTHON.EXE")]);
    assert!(matched(&proc(10, 1, "PYTHON.EXE"), &ps, &r));
    assert!(!matched(&proc(11, 1, "other.exe"), &ps, &r));
}

#[test]
fn deny_wins_over_allow_and_parent() {
    let r = rule("allow = [\"node.exe\"]\nallow_parent = [\"Code.exe\"]\ndeny = [\"Node.exe\"]");
    let ps = table(vec![proc(1, 0, "Code.exe"), proc(2, 1, "node.exe")]);
    assert!(!matched(&proc(2, 1, "node.exe"), &ps, &r));
}

#[test]
fn descendant_of_allowed_parent_matches() {
    let r = rule("allow_parent = [\"code.exe\"]");
    let ps = table(vec![
        proc(1, 0, "Code.exe"),
        proc(2, 1, "shell.exe"),
        proc(3, 2, "tool.exe"),
    ]);
    assert!(matched(&proc(3, 2, "tool.exe"), &ps, &r));
    assert!(matched(&proc(2, 1, "shell.exe"), &ps, &r));
    // the allowed parent itself is not its own descendant
    assert!(!matched(&proc(1, 0, "Code.exe"), &ps, &r));
}

#[test]
fn missing_parent_stops_the_search() {
    let r = rule("allow_parent = [\"code.exe\"]");
    let ps = table(vec![proc(1, 0, "Code.exe"), proc(3, 2, "tool.exe")]);
    assert!(!matched(&proc(3, 2, "tool.exe"), &ps, &r));
}

#[test]
fn descendants_match_at_any_depth() {
    let r = rule("allow_parent = [\"root.exe\"]");
    let mut list = vec![proc(1, 0, "root.exe")];
    for pid in 2..=40u32 {
        list.push(proc(pid, pid - 1, "child.exe"));
    }
    let ps = table(list);
    assert!(matched(&proc(33, 32, "child.exe"), &ps, &r));
    assert!(matched(&proc(34, 33, "child.exe"), &ps, &r));
    assert!(matched(&proc(40, 39, "child.exe"), &ps, &r));
    // a process outside the table whose parent is the deepest one
    assert!(matched(&proc(41, 40, "child.exe"), &ps, &r));
}

#[test]
fn named_ancestor_on_a_cycle_is_found() {
    let mut names = NameSet::new();
    names.insert("b.exe".to_string());
    let ps = table(vec![proc(5, 6, "a.exe"), proc(6, 7, "c.exe"), proc(7, 5, "B.EXE")]);
    assert!(has_parent(&proc(5, 6, "a.exe"), &ps, &names));
}

#[test]
fn parent_cycle_terminates() {
    let mut names = NameSet::new();
    names.insert("x.exe".to_string());
    let ps = table(vec![proc(5, 6, "a.exe"), proc(6, 5, "b.exe")]);
    assert!(!has_parent(&proc(5, 6, "a.exe"), &ps, &names));
}
