use chat_commands::{Args, Commands, Outcome, Platform};
use std::cell::RefCell;

struct Chat;

impl Platform for Chat {
    type Client = String;
    type Context = RefCell<Vec<String>>;
    type Message = u32;
    type Error = String;
}

type Guard = fn(&Args<Chat>) -> Result<bool, String>;
type Handler = Box<dyn Fn(Args<Chat>) -> Result<(), String>>;
type Registry = Commands<Chat, Guard, Handler>;

fn registry() -> Registry {
    Commands::new(String::from("client"))
}

/// A handler that writes down what it was given.
fn note(tag: &'static str) -> Handler {
    Box::new(move |args: Args<Chat>| {
        let mut keys: Vec<String> = Vec::new();
        for key in ["a", "b", "k"] {
            if let Some(value) = args.params.get(key) {
                keys.push(format!("{}={}", key, value));
            }
        }
        args.cx.borrow_mut().push(format!(
            "{}|{}|{}|{}|{}",
            tag,
            args.http,
            args.msg,
            keys.join(","),
            args.body
        ));
        Ok(())
    })
}

fn failing(tag: &'static str) -> Handler {
    Box::new(move |args: Args<Chat>| {
        args.cx.borrow_mut().push(format!("{} ran", tag));
        Err(format!("{} broke", tag))
    })
}

fn yes(_: &Args<Chat>) -> Result<bool, String> {
    Ok(true)
}

fn no(_: &Args<Chat>) -> Result<bool, String> {
    Ok(false)
}

fn broken(_: &Args<Chat>) -> Result<bool, String> {
    Err(String::from("guard broke"))
}

fn only_with_key(args: &Args<Chat>) -> Result<bool, String> {
    Ok(args.params.contains_key("k") && args.body == "go")
}

fn log() -> RefCell<Vec<String>> {
    RefCell::new(Vec::new())
}

#[test]
fn a_matching_command_gets_parameters_and_body() {
    let mut commands = registry();
    commands.add("?say", note("say"));
    let cx = log();
    let outs = commands.execute(&cx, &7, "?say   a=1 b=2 hello   world  ");
    assert_eq!(outs, vec![Outcome::HandlerOk]);
    assert_eq!(*cx.borrow(), vec!["say|client|7|a=1,b=2|hello   world"]);
}

#[test]
fn an_empty_registry_gives_no_outcome() {
    let commands = registry();
    let cx = log();
    assert_eq!(commands.len(), 0);
    assert_eq!(commands.execute(&cx, &0, "?anything"), vec![]);
    assert!(cx.borrow().is_empty());
}

#[test]
fn two_names_that_both_match_are_both_dispatched() {
    let mut commands = registry();
    commands.add("?a", note("short"));
    commands.add("?nothing", note("other"));
    commands.add("?ab", note("long"));
    let cx = log();
    let outs = commands.execute(&cx, &1, "?ab x");
    assert_eq!(outs, vec![Outcome::HandlerOk, Outcome::NotMatched, Outcome::HandlerOk]);
    assert_eq!(*cx.borrow(), vec!["short|client|1||b x", "long|client|1||x"]);
}

#[test]
fn two_matches_are_settled_independently() {
    let mut commands = registry();
    commands.add_protected("?a", note("first"), no);
    commands.add("?a", failing("second"));
    commands.add_protected("?a", note("third"), broken);
    commands.add("?a", note("fourth"));
    let cx = log();
    let outs = commands.execute(&cx, &1, "?a");
    assert_eq!(
        outs,
        vec![
            Outcome::GuardSkip,
            Outcome::HandlerError(String::from("second broke")),
            Outcome::GuardError(String::from("guard broke")),
            Outcome::HandlerOk,
        ]
    );
    assert_eq!(*cx.borrow(), vec!["second ran", "fourth|client|1||"]);
}

#[test]
fn the_same_name_registered_twice_runs_twice_in_order() {
    let mut commands = registry();
    commands.add("?dup", note("one"));
    commands.add("?dup", note("two"));
    let cx = log();
    let outs = commands.execute(&cx, &3, "?dup k=v");
    assert_eq!(outs, vec![Outcome::HandlerOk, Outcome::HandlerOk]);
    assert_eq!(*cx.borrow(), vec!["one|client|3|k=v|", "two|client|3|k=v|"]);
}

#[test]
fn a_guard_that_says_no_skips_the_handler_without_error() {
    let mut commands = registry();
    commands.add_protected("?secret", note("secret"), no);
    let cx = log();
    let outs = commands.execute(&cx, &1, "?secret please");
    assert_eq!(outs, vec![Outcome::GuardSkip]);
    assert!(outs[0].matched());
    assert!(!outs[0].invoked());
    assert_eq!(outs[0].error(), None);
    assert!(cx.borrow().is_empty());
}

#[test]
fn a_guard_that_says_yes_lets_the_handler_run() {
    let mut commands = registry();
    commands.add_protected("?open", note("open"), yes);
    let cx = log();
    let outs = commands.execute(&cx, &1, "?open door");
    assert_eq!(outs, vec![Outcome::HandlerOk]);
    assert!(outs[0].invoked());
    assert_eq!(outs[0].error(), None);
    assert_eq!(*cx.borrow(), vec!["open|client|1||door"]);
}

#[test]
fn a_guard_that_fails_is_reported_and_the_handler_is_not_run() {
    let mut commands = registry();
    commands.add_protected("?x", note("x"), broken);
    let cx = log();
    let outs = commands.execute(&cx, &1, "?x");
    assert_eq!(outs, vec![Outcome::GuardError(String::from("guard broke"))]);
    assert!(!outs[0].invoked());
    assert_eq!(outs[0].error(), Some(&String::from("guard broke")));
    assert!(cx.borrow().is_empty());
}

#[test]
fn a_handler_that_fails_is_reported_and_the_others_go_on() {
    let mut commands = registry();
    commands.add("?x", failing("x"));
    commands.add("?x", note("after"));
    let cx = log();
    let outs = commands.execute(&cx, &1, "?x");
    assert_eq!(outs, vec![Outcome::HandlerError(String::from("x broke")), Outcome::HandlerOk]);
    assert!(outs[0].invoked());
    assert_eq!(outs[0].error(), Some(&String::from("x broke")));
    assert_eq!(*cx.borrow(), vec!["x ran", "after|client|1||"]);
}

#[test]
fn a_message_that_names_no_command_runs_nothing() {
    let mut commands = registry();
    commands.add("?a", note("a"));
    commands.add_protected("?b", failing("b"), broken);
    commands.help("?c", "about c", note("c"));
    let cx = log();
    for text in ["", "hello", "a", " ?a", "?", "?A", "? a", "help c"] {
        let outs = commands.execute(&cx, &1, text);
        assert_eq!(outs, vec![Outcome::NotMatched, Outcome::NotMatched, Outcome::NotMatched]);
        for out in &outs {
            assert!(!out.matched());
            assert!(!out.invoked());
            assert_eq!(out.error(), None);
        }
    }
    assert!(cx.borrow().is_empty());
}

#[test]
fn the_guard_sees_what_the_handler_sees() {
    let mut commands = registry();
    commands.add_protected("?do", note("do"), only_with_key);
    let cx = log();
    assert_eq!(commands.execute(&cx, &1, "?do go"), vec![Outcome::GuardSkip]);
    assert_eq!(commands.execute(&cx, &1, "?do k=1 stop"), vec![Outcome::GuardSkip]);
    assert_eq!(commands.execute(&cx, &1, "?do k=1 go"), vec![Outcome::HandlerOk]);
    assert_eq!(*cx.borrow(), vec!["do|client|1|k=1|go"]);
}

#[test]
fn help_is_dispatched_under_the_help_alias() {
    let mut commands = registry();
    commands.add("?ping", note("ping"));
    commands.help("?ping", "answers pong", note("help for ping"));
    let cx = log();
    assert_eq!(commands.len(), 2);
    assert_eq!(
        commands.execute(&cx, &1, "?help ping"),
        vec![Outcome::NotMatched, Outcome::HandlerOk]
    );
    assert_eq!(
        commands.execute(&cx, &2, "?ping now"),
        vec![Outcome::HandlerOk, Outcome::NotMatched]
    );
    assert_eq!(*cx.borrow(), vec!["help for ping|client|1||", "ping|client|2||now"]);
}

#[test]
fn the_help_alias_drops_the_first_character_whatever_it_is() {
    let mut commands = registry();
    commands.help("!roll", "rolls dice", note("one"));
    commands.help("¿qué", "pregunta", note("two"));
    commands.help("?", "nothing left", note("three"));
    let cx = log();
    assert_eq!(
        commands.execute(&cx, &1, "?help roll"),
        vec![Outcome::HandlerOk, Outcome::NotMatched, Outcome::HandlerOk]
    );
    assert_eq!(
        commands.execute(&cx, &1, "?help qué"),
        vec![Outcome::NotMatched, Outcome::HandlerOk, Outcome::HandlerOk]
    );
    assert_eq!(
        *cx.borrow(),
        vec![
            "one|client|1||",
            "three|client|1||roll",
            "two|client|1||",
            "three|client|1||qué"
        ]
    );
}

#[test]
fn a_name_that_begins_another_fires_with_it() {
    let mut commands = registry();
    commands.add("?help", note("menu"));
    commands.help("?foo", "about foo", note("help for foo"));
    let cx = log();
    let outs = commands.execute(&cx, &1, "?help foo");
    assert_eq!(outs, vec![Outcome::HandlerOk, Outcome::HandlerOk]);
    assert_eq!(*cx.borrow(), vec!["menu|client|1||foo", "help for foo|client|1||"]);
}

#[test]
fn protected_help_is_guarded_like_any_command() {
    let mut commands = registry();
    commands.help_protected("?ban", "bans", note("help for ban"), no);
    commands.help_protected("?kick", "kicks", note("help for kick"), yes);
    let cx = log();
    assert_eq!(
        commands.execute(&cx, &1, "?help ban"),
        vec![Outcome::GuardSkip, Outcome::NotMatched]
    );
    assert_eq!(
        commands.execute(&cx, &1, "?help kick"),
        vec![Outcome::NotMatched, Outcome::HandlerOk]
    );
    assert_eq!(*cx.borrow(), vec!["help for kick|client|1||"]);
}

#[test]
fn the_menu_is_handed_over_once() {
    let mut commands = registry();
    commands.help("?a", "about a", note("a"));
    commands.help_protected("?b", "about b", note("b"), no);
    let menu = commands.take_menu().expect("the first take gives the menu");
    assert_eq!(menu.len(), 2);
    let (name, description, guard) = menu.entry(0).unwrap();
    assert_eq!((name, description), ("?a", "about a"));
    assert!(guard.is_none());
    let (name, description, guard) = menu.entry(1).unwrap();
    assert_eq!((name, description), ("?b", "about b"));
    assert!(guard.is_some());
    assert!(menu.entry(2).is_none());

    assert!(commands.take_menu().is_none());
    commands.help("?c", "about c", note("c"));
    commands.help_protected("?d", "about d", note("d"), yes);
    assert!(commands.take_menu().is_none());
    assert!(commands.take_menu().is_none());
    assert_eq!(menu.len(), 2);

    let cx = log();
    assert_eq!(commands.len(), 4);
    assert_eq!(
        commands.execute(&cx, &1, "?help c"),
        vec![Outcome::NotMatched, Outcome::NotMatched, Outcome::HandlerOk, Outcome::NotMatched]
    );
}

#[test]
fn a_registry_without_help_has_an_empty_menu() {
    let mut commands = registry();
    commands.add("?a", note("a"));
    let menu = commands.take_menu().unwrap();
    assert!(menu.is_empty());
    assert_eq!(menu.len(), 0);
    assert!(commands.take_menu().is_none());
}

#[test]
fn documenting_a_command_again_keeps_its_place_in_the_menu() {
    let mut commands = registry();
    commands.help("?a", "first words", note("a"));
    commands.help("?b", "about b", note("b"));
    commands.help_protected("?a", "second words", note("a again"), no);
    assert_eq!(commands.len(), 3);
    let menu = commands.take_menu().unwrap();
    assert_eq!(menu.len(), 2);
    let (name, description, guard) = menu.entry(0).unwrap();
    assert_eq!((name, description), ("?a", "second words"));
    assert!(guard.is_some());
    let (name, description, _) = menu.entry(1).unwrap();
    assert_eq!((name, description), ("?b", "about b"));
}

#[test]
fn the_guard_in_the_menu_is_the_guard_that_was_registered() {
    let mut commands = registry();
    commands.help_protected("?do", "does", note("do"), only_with_key);
    let menu = commands.take_menu().unwrap();
    let (_, _, guard) = menu.entry(0).unwrap();
    let guard = guard.unwrap();
    let cx = log();
    let (params, body) = chat_commands::tokenize("k=1 go");
    let client = String::from("client");
    let args = Args::<Chat> { http: &client, cx: &cx, msg: &1, params: &params, body };
    assert_eq!(guard(&args), Ok(true));
    let (params, body) = chat_commands::tokenize("go");
    let args = Args::<Chat> { http: &client, cx: &cx, msg: &1, params: &params, body };
    assert_eq!(guard(&args), Ok(false));
}

#[test]
fn outcomes_read_guard_and_handler_answers() {
    assert_eq!(Outcome::<String>::of_guard(Ok(true)), None);
    assert_eq!(Outcome::<String>::of_guard(Ok(false)), Some(Outcome::GuardSkip));
    assert_eq!(
        Outcome::of_guard(Err(String::from("e"))),
        Some(Outcome::GuardError(String::from("e")))
    );
    assert_eq!(Outcome::<String>::of_handler(Ok(())), Outcome::HandlerOk);
    assert_eq!(
        Outcome::of_handler(Err(String::from("e"))),
        Outcome::HandlerError(String::from("e"))
    );
}
