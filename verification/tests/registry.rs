use std::cell::RefCell;
use std::rc::Rc;

use txtlib::registry::{conclude, exit_code, DispatchOutcome, FinalAct, TxtAction, TxtLib};
use txtlib::TxtError;

struct LogAction {
    log: Rc<RefCell<Vec<String>>>,
    tag: &'static str,
    fails: bool,
}

impl TxtAction for LogAction {
    fn run(&self) -> Result<(), TxtError> {
        self.log.borrow_mut().push(self.tag.to_string());
        if self.fails {
            Err(TxtError::FileNotFound(String::from("missing.txt")))
        } else {
            Ok(())
        }
    }
}

fn action(log: &Rc<RefCell<Vec<String>>>, tag: &'static str, fails: bool) -> LogAction {
    LogAction { log: Rc::clone(log), tag, fails }
}

#[test]
fn new_registry_is_empty() {
    let lib: TxtLib<LogAction> = TxtLib::new("tool", "does things", "https://example.test/docs");
    assert_eq!(lib.project_name, "tool");
    assert_eq!(lib.project_description, "does things");
    assert_eq!(lib.doc_url, "https://example.test/docs");
    assert_eq!(lib.commands.len(), 0);
}

#[test]
fn add_command_keeps_registration_order() {
    let log = Rc::new(RefCell::new(Vec::new()));
    let mut lib: TxtLib<LogAction> = TxtLib::new("tool", "d", "u");
    lib.add_command("one", "first", action(&log, "a", false));
    lib.add_command("two", "second", action(&log, "b", false));
    assert_eq!(lib.commands.len(), 2);
    assert_eq!(lib.commands[0].name, "one");
    assert_eq!(lib.commands[0].description, "first");
    assert_eq!(lib.commands[1].name, "two");
    assert_eq!(lib.commands[1].description, "second");
}

#[test]
fn matching_indices_finds_every_match_in_order() {
    let log = Rc::new(RefCell::new(Vec::new()));
    let mut lib: TxtLib<LogAction> = TxtLib::new("tool", "d", "u");
    lib.add_command("run", "first", action(&log, "a", false));
    lib.add_command("other", "middle", action(&log, "b", false));
    lib.add_command("run", "second", action(&log, "c", false));
    assert_eq!(lib.matching_indices(&String::from("run")), vec![0, 2]);
    assert_eq!(lib.matching_indices(&String::from("other")), vec![1]);
    assert_eq!(lib.matching_indices(&String::from("nope")), Vec::<usize>::new());
}

#[test]
fn duplicate_names_run_both_actions() {
    let log = Rc::new(RefCell::new(Vec::new()));
    let mut lib: TxtLib<LogAction> = TxtLib::new("tool", "d", "u");
    lib.add_command("run", "first", action(&log, "first", false));
    lib.add_command("run", "second", action(&log, "second", false));
    let r = lib.run_command(&Some(String::from("run")));
    assert_eq!(r, Ok(DispatchOutcome::Ran));
    assert_eq!(*log.borrow(), vec![String::from("first"), String::from("second")]);
}

#[test]
fn missing_token_shows_help() {
    let log = Rc::new(RefCell::new(Vec::new()));
    let mut lib: TxtLib<LogAction> = TxtLib::new("tool", "d", "u");
    lib.add_command("run", "first", action(&log, "first", false));
    let r = lib.run_command(&None);
    assert_eq!(r, Ok(DispatchOutcome::Help));
    assert!(log.borrow().is_empty());
    let act = conclude(&r);
    assert_eq!(act, FinalAct::PrintHelpExit0);
    assert_eq!(exit_code(&act), 0);
}

#[test]
fn unknown_token_shows_help() {
    let log = Rc::new(RefCell::new(Vec::new()));
    let mut lib: TxtLib<LogAction> = TxtLib::new("tool", "d", "u");
    lib.add_command("run", "first", action(&log, "first", false));
    let r = lib.run_command(&Some(String::from("walk")));
    assert_eq!(r, Ok(DispatchOutcome::Help));
    assert!(log.borrow().is_empty());
    assert_eq!(exit_code(&conclude(&r)), 0);
}

#[test]
fn user_arg_is_the_indexed_token_or_missing() {
    let args = vec![String::from("prog"), String::from("run"), String::from("extra")];
    assert_eq!(txtlib::registry::get_user_arg(&args, 1), Ok(String::from("run")));
    assert_eq!(txtlib::registry::get_user_arg(&args, 2), Ok(String::from("extra")));
    assert_eq!(txtlib::registry::get_user_arg(&args, 3), Err(TxtError::ArgNotFound(3)));
    assert_eq!(txtlib::registry::get_user_arg(&Vec::new(), 0), Err(TxtError::ArgNotFound(0)));
}

#[test]
fn help_text_lists_everything_in_order() {
    let log = Rc::new(RefCell::new(Vec::new()));
    let mut lib: TxtLib<LogAction> = TxtLib::new("mytool", "edits text", "https://example.test");
    lib.add_command("new", "makes a file", action(&log, "a", false));
    lib.add_command("del", "removes a file", action(&log, "b", false));
    let expected = "mytool - edits text\n\nnew - makes a file\n\ndel - removes a file\n\n\
                    more documentation is available at https://example.test";
    assert_eq!(lib.help_text(), expected);
}

#[test]
fn action_error_is_fatal_after_earlier_matches_ran() {
    let log = Rc::new(RefCell::new(Vec::new()));
    let mut lib: TxtLib<LogAction> = TxtLib::new("tool", "d", "u");
    lib.add_command("run", "first", action(&log, "first", false));
    lib.add_command("run", "second", action(&log, "second", true));
    lib.add_command("run", "third", action(&log, "third", false));
    let r = lib.run_command(&Some(String::from("run")));
    assert_eq!(r, Err(TxtError::FileNotFound(String::from("missing.txt"))));
    assert_eq!(*log.borrow(), vec![String::from("first"), String::from("second")]);
    let act = conclude(&r);
    assert_eq!(
        act,
        FinalAct::PrintErrorExit1(String::from("the file at missing.txt is not found."))
    );
    assert_eq!(exit_code(&act), 1);
}
