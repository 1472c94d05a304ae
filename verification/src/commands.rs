//! The command registry and the dispatcher.
//!
//! Commands are kept in the order in which they were registered. A message is
//! held against every command in that order; each command whose name the
//! message begins with is dispatched on its own, whatever became of the
//! others.

use crate::menu::{listed, Menu, MenuEntry};
use crate::params::Params;
use crate::text::{is_space, lemma_trim_is_tight, remainder, strip_command};
use crate::tokenizer::{lemma_body_begins_with_word, lemma_body_is_suffix, parse, tokenize, Parsed};
use vstd::prelude::*;
use vstd::string::StringExecFns;

verus! {

/// The types that the chat platform brings along. The engine hands values of
/// them through to guards and handlers and never looks inside.
pub trait Platform {
    /// The outbound client that all commands share.
    type Client;

    /// The platform's context of one incoming message.
    type Context;

    /// The incoming message.
    type Message;

    /// What a guard or a handler fails with.
    type Error;
}

/// What a guard or a handler sees of one message.
pub struct Args<'a, P: Platform> {
    pub http: &'a P::Client,
    pub cx: &'a P::Context,
    pub msg: &'a P::Message,
    pub params: &'a Params,
    pub body: &'a str,
}

/// What became of one command on one message.
#[derive(Debug, PartialEq, Eq)]
pub enum Outcome<E> {
    /// The message does not begin with the command's name.
    NotMatched,
    /// The guard said no: the handler was not run.
    GuardSkip,
    /// The guard failed: the handler was not run.
    GuardError(E),
    /// The handler ran and succeeded.
    HandlerOk,
    /// The handler ran and failed.
    HandlerError(E),
}

/// Whether the outcome carries an error to report.
pub open spec fn reports_error<E>(out: Outcome<E>) -> bool {
    out is GuardError || out is HandlerError
}

/// Whether the handler was run.
pub open spec fn ran_handler<E>(out: Outcome<E>) -> bool {
    out is HandlerOk || out is HandlerError
}

/// Where a guard's answer ends the dispatch of a command, the outcome; `None`
/// where the handler is to run.
pub open spec fn guard_outcome<E>(answer: Result<bool, E>) -> Option<Outcome<E>> {
    match answer {
        Ok(true) => None,
        Ok(false) => Some(Outcome::GuardSkip),
        Err(e) => Some(Outcome::GuardError(e)),
    }
}

/// The outcome after the handler has run.
pub open spec fn handler_outcome<E>(answer: Result<(), E>) -> Outcome<E> {
    match answer {
        Ok(_) => Outcome::HandlerOk,
        Err(e) => Outcome::HandlerError(e),
    }
}

impl<E> Outcome<E> {
    /// Reads a guard's answer: `None` where the handler is to run, else the
    /// outcome that ends the dispatch.
    pub fn of_guard(answer: Result<bool, E>) -> (r: Option<Outcome<E>>)
        ensures
            r == guard_outcome(answer),
    {
        match answer {
            Ok(true) => None,
            Ok(false) => Some(Outcome::GuardSkip),
            Err(e) => Some(Outcome::GuardError(e)),
        }
    }

    /// Reads a handler's answer.
    pub fn of_handler(answer: Result<(), E>) -> (r: Outcome<E>)
        ensures
            r == handler_outcome(answer),
    {
        match answer {
            Ok(_) => Outcome::HandlerOk,
            Err(e) => Outcome::HandlerError(e),
        }
    }

    /// The error to report, if the guard or the handler failed.
    pub fn error(&self) -> (r: Option<&E>)
        ensures
            r is Some <==> reports_error(*self),
            match *self {
                Outcome::GuardError(e) => r == Some(&e),
                Outcome::HandlerError(e) => r == Some(&e),
                _ => r is None,
            },
    {
        match self {
            Outcome::GuardError(e) => Some(e),
            Outcome::HandlerError(e) => Some(e),
            _ => None,
        }
    }

    /// Whether the message began with the command's name.
    pub fn matched(&self) -> (r: bool)
        ensures
            r == !(*self is NotMatched),
    {
        match self {
            Outcome::NotMatched => false,
            _ => true,
        }
    }

    /// Whether the handler was run.
    pub fn invoked(&self) -> (r: bool)
        ensures
            r == ran_handler(*self),
    {
        match self {
            Outcome::HandlerOk => true,
            Outcome::HandlerError(_) => true,
            _ => false,
        }
    }
}

/// One registered command, as the contracts speak of it.
pub struct Entry<G, F> {
    /// The name, trigger marker included.
    pub name: Seq<char>,
    /// Who may use the command; `None` stands for everybody.
    pub guard: Option<G>,
    /// What the command does.
    pub handler: F,
}

/// The state of a registry: its commands in registration order, and the help
/// menu as long as nobody has taken it.
pub struct Registry<G, F> {
    pub commands: Seq<Entry<G, F>>,
    pub menu: Option<Seq<MenuEntry<G>>>,
}

/// The word under which the help of a command is registered.
pub open spec fn help_word() -> Seq<char> {
    seq!['?', 'h', 'e', 'l', 'p', ' ']
}

/// The name under which the help of the command `cmd` is dispatched: the help
/// word, then `cmd` without its trigger marker.
pub open spec fn help_alias(cmd: Seq<char>) -> Seq<char> {
    help_word() + cmd.skip(1)
}

impl<G, F> Registry<G, F> {
    /// The registry after a command has been registered.
    pub open spec fn added(self, name: Seq<char>, guard: Option<G>, handler: F) -> Self {
        Registry {
            commands: self.commands.push(Entry { name, guard, handler }),
            menu: self.menu,
        }
    }

    /// The registry after the help of `cmd` has been registered: the help
    /// handler is a command of its own under the help alias, and `cmd` is
    /// listed in the menu unless the menu has been taken.
    pub open spec fn documented(
        self,
        cmd: Seq<char>,
        description: Seq<char>,
        guard: Option<G>,
        handler: F,
    ) -> Self {
        Registry {
            commands: self.commands.push(Entry { name: help_alias(cmd), guard, handler }),
            menu: match self.menu {
                Some(menu) => Some(listed(menu, MenuEntry { name: cmd, description, guard })),
                None => None,
            },
        }
    }

    /// The registry after the menu has been taken.
    pub open spec fn taken(self) -> Self {
        Registry { commands: self.commands, menu: None }
    }
}

/// One step in the life of a registry.
pub enum Step<G, F> {
    Add { name: Seq<char>, guard: Option<G>, handler: F },
    Help { cmd: Seq<char>, description: Seq<char>, guard: Option<G>, handler: F },
    TakeMenu,
}

/// The registry after one step.
pub open spec fn step<G, F>(registry: Registry<G, F>, s: Step<G, F>) -> Registry<G, F> {
    match s {
        Step::Add { name, guard, handler } => registry.added(name, guard, handler),
        Step::Help { cmd, description, guard, handler } => registry.documented(
            cmd,
            description,
            guard,
            handler,
        ),
        Step::TakeMenu => registry.taken(),
    }
}

/// The registry after the steps `steps`, first to last.
pub open spec fn run<G, F>(registry: Registry<G, F>, steps: Seq<Step<G, F>>) -> Registry<G, F>
    decreases steps.len(),
{
    if steps.len() == 0 {
        registry
    } else {
        step(run(registry, steps.drop_last()), steps.last())
    }
}

/// Once the menu has been taken it stays taken: whatever is registered
/// afterwards, and however often the menu is asked for again, there is none.
pub proof fn lemma_menu_is_taken_once<G, F>(registry: Registry<G, F>, steps: Seq<Step<G, F>>)
    ensures
        run(registry.taken(), steps).menu is None,
        run(registry.taken(), steps).commands.len() >= registry.commands.len(),
    decreases steps.len(),
{
    if steps.len() > 0 {
        lemma_menu_is_taken_once(registry, steps.drop_last());
    }
}

/// Registering never disturbs what was registered before: the commands that
/// were there keep their places.
pub proof fn lemma_commands_are_kept<G, F>(registry: Registry<G, F>, steps: Seq<Step<G, F>>)
    ensures
        registry.commands.is_prefix_of(run(registry, steps).commands),
    decreases steps.len(),
{
    if steps.len() > 0 {
        lemma_commands_are_kept(registry, steps.drop_last());
        let before = run(registry, steps.drop_last()).commands;
        let after = run(registry, steps).commands;
        assert(registry.commands =~= after.subrange(0, registry.commands.len() as int)) by {
            assert(registry.commands =~= before.subrange(0, registry.commands.len() as int));
        }
    } else {
        assert(registry.commands =~= registry.commands.subrange(
            0,
            registry.commands.len() as int,
        ));
    }
}

/// The guard `guard` may answer `answer` to `args`. Where there is no guard,
/// the answer is yes.
pub open spec fn guard_says<P: Platform, G: Fn(&Args<P>) -> Result<bool, P::Error>>(
    guard: Option<G>,
    args: &Args<P>,
    answer: Result<bool, P::Error>,
) -> bool {
    match guard {
        Some(g) => call_ensures(g, (args,), answer),
        None => answer == Ok::<bool, P::Error>(true),
    }
}

/// `args` shows the given client, context and message, and the parameters and
/// the body of `parsed`.
pub open spec fn presents<P: Platform>(
    args: Args<P>,
    client: P::Client,
    cx: P::Context,
    msg: P::Message,
    parsed: Parsed,
) -> bool {
    &&& *args.http == client
    &&& *args.cx == cx
    &&& *args.msg == msg
    &&& args.params@ == parsed.params
    &&& args.body@ == parsed.body
}

/// `out` is a possible outcome of the command `entry` on the message `text`.
///
/// A command whose name `text` does not begin with is not matched. Otherwise
/// the rest of `text` is parsed, the guard is asked, and the handler is run
/// if and only if the guard said yes; both see the same arguments.
pub open spec fn settled<P: Platform, G, F>(
    entry: Entry<G, F>,
    client: P::Client,
    cx: P::Context,
    msg: P::Message,
    text: Seq<char>,
    out: Outcome<P::Error>,
) -> bool where G: Fn(&Args<P>) -> Result<bool, P::Error>, F: Fn(Args<P>) -> Result<(), P::Error> {
    match remainder(text, entry.name) {
        None => out is NotMatched,
        Some(rest) => exists|args: Args<P>, answer: Result<bool, P::Error>|
            {
                &&& #[trigger] guard_says(entry.guard, &args, answer)
                &&& presents(args, client, cx, msg, parse(rest))
                &&& match guard_outcome(answer) {
                    Some(o) => out == o,
                    None => exists|done: Result<(), P::Error>| #[trigger]
                        call_ensures(entry.handler, (args,), done) && out == handler_outcome(done),
                }
            },
    }
}

/// `outs` holds a possible outcome for each of `commands`, in their order.
pub open spec fn dispatched<P: Platform, G, F>(
    commands: Seq<Entry<G, F>>,
    client: P::Client,
    cx: P::Context,
    msg: P::Message,
    text: Seq<char>,
    outs: Seq<Outcome<P::Error>>,
) -> bool where G: Fn(&Args<P>) -> Result<bool, P::Error>, F: Fn(Args<P>) -> Result<(), P::Error> {
    &&& outs.len() == commands.len()
    &&& forall|i: int|
        0 <= i < commands.len() ==> settled::<P, G, F>(
            #[trigger] commands[i],
            client,
            cx,
            msg,
            text,
            outs[i],
        )
}

/// A message that begins with no registered name runs no handler and reports
/// no error: every command is left unmatched.
pub proof fn lemma_no_match<P: Platform, G, F>(
    commands: Seq<Entry<G, F>>,
    client: P::Client,
    cx: P::Context,
    msg: P::Message,
    text: Seq<char>,
    outs: Seq<Outcome<P::Error>>,
) where G: Fn(&Args<P>) -> Result<bool, P::Error>, F: Fn(Args<P>) -> Result<(), P::Error>
    requires
        dispatched::<P, G, F>(commands, client, cx, msg, text, outs),
        forall|i: int| 0 <= i < commands.len() ==> !(#[trigger] commands[i]).name.is_prefix_of(text),
    ensures
        forall|i: int| 0 <= i < outs.len() ==> #[trigger] outs[i] is NotMatched,
        forall|i: int|
            0 <= i < outs.len() ==> !ran_handler(#[trigger] outs[i]) && !reports_error(outs[i]),
{
    assert forall|i: int| 0 <= i < outs.len() implies #[trigger] outs[i] is NotMatched by {
        assert(settled::<P, G, F>(commands[i], client, cx, msg, text, outs[i]));
    }
}

/// A command whose guard can only say no never has its handler run and never
/// reports an error.
pub proof fn lemma_guard_says_no<P: Platform, G, F>(
    entry: Entry<G, F>,
    client: P::Client,
    cx: P::Context,
    msg: P::Message,
    text: Seq<char>,
    out: Outcome<P::Error>,
) where G: Fn(&Args<P>) -> Result<bool, P::Error>, F: Fn(Args<P>) -> Result<(), P::Error>
    requires
        settled::<P, G, F>(entry, client, cx, msg, text, out),
        forall|args: Args<P>, answer: Result<bool, P::Error>| #[trigger]
            guard_says(entry.guard, &args, answer) ==> answer == Ok::<bool, P::Error>(false),
    ensures
        !ran_handler(out),
        !reports_error(out),
        out is GuardSkip <==> entry.name.is_prefix_of(text),
{
}

/// Every command whose name the message begins with is dispatched, however
/// many there are: two matching commands both get past the name test, and
/// the outcome of each is settled by its own guard and handler alone.
pub proof fn lemma_every_match_is_dispatched<P: Platform, G, F>(
    commands: Seq<Entry<G, F>>,
    client: P::Client,
    cx: P::Context,
    msg: P::Message,
    text: Seq<char>,
    outs: Seq<Outcome<P::Error>>,
    i: int,
    j: int,
) where G: Fn(&Args<P>) -> Result<bool, P::Error>, F: Fn(Args<P>) -> Result<(), P::Error>
    requires
        dispatched::<P, G, F>(commands, client, cx, msg, text, outs),
        0 <= i < commands.len(),
        0 <= j < commands.len(),
        commands[i].name.is_prefix_of(text),
        commands[j].name.is_prefix_of(text),
    ensures
        !(outs[i] is NotMatched),
        !(outs[j] is NotMatched),
        settled::<P, G, F>(commands[i], client, cx, msg, text, outs[i]),
        settled::<P, G, F>(commands[j], client, cx, msg, text, outs[j]),
{
    assert(settled::<P, G, F>(commands[i], client, cx, msg, text, outs[i]));
    assert(settled::<P, G, F>(commands[j], client, cx, msg, text, outs[j]));
}

/// A command is left unmatched exactly when the message does not begin with
/// its name, and a matched command without a guard has its handler run.
pub proof fn lemma_one_outcome<P: Platform, G, F>(
    entry: Entry<G, F>,
    client: P::Client,
    cx: P::Context,
    msg: P::Message,
    text: Seq<char>,
    out: Outcome<P::Error>,
) where G: Fn(&Args<P>) -> Result<bool, P::Error>, F: Fn(Args<P>) -> Result<(), P::Error>
    requires
        settled::<P, G, F>(entry, client, cx, msg, text, out),
    ensures
        out is NotMatched <==> !entry.name.is_prefix_of(text),
        entry.guard is None ==> out is NotMatched || ran_handler(out),
{
}

/// The body that a matched command is given has no whitespace at either end.
pub proof fn lemma_body_is_trimmed(text: Seq<char>, name: Seq<char>)
    requires
        name.is_prefix_of(text),
    ensures
        ({
            let body = parse(remainder(text, name)->0).body;
            body.len() > 0 ==> !is_space(body[0]) && !is_space(body.last())
        }),
{
    let rest = remainder(text, name)->0;
    let body = parse(rest).body;
    lemma_trim_is_tight(text.skip(name.len() as int));
    lemma_body_is_suffix(rest);
    lemma_body_begins_with_word(rest);
    if body.len() > 0 {
        assert(body.last() == rest.last());
    }
}

/// A command as the registry keeps it.
struct Command<G, F> {
    name: String,
    guard: Option<G>,
    handler: F,
}

/// The command registry.
pub struct Commands<P: Platform, G, F> where
    G: Fn(&Args<P>) -> Result<bool, P::Error>,
    F: Fn(Args<P>) -> Result<(), P::Error>,
 {
    client: P::Client,
    menu: Option<Menu<G>>,
    new_commands: Vec<Command<G, F>>,
}

/// The guard takes every argument.
pub open spec fn guard_is_total<P: Platform, G: Fn(&Args<P>) -> Result<bool, P::Error>>(
    guard: Option<G>,
) -> bool {
    match guard {
        Some(g) => forall|args: &Args<P>| #[trigger] call_requires(g, (args,)),
        None => true,
    }
}

/// The handler takes every argument.
pub open spec fn handler_is_total<P: Platform, F: Fn(Args<P>) -> Result<(), P::Error>>(
    handler: F,
) -> bool {
    forall|args: Args<P>| #[trigger] call_requires(handler, (args,))
}

impl<P: Platform, G, F> Commands<P, G, F> where
    G: Fn(&Args<P>) -> Result<bool, P::Error>,
    F: Fn(Args<P>) -> Result<(), P::Error>,
 {
    #[verifier::type_invariant]
    spec fn inv(&self) -> bool {
        forall|i: int|
            0 <= i < self.new_commands.len() ==> guard_is_total::<P, G>(
                (#[trigger] self.new_commands[i]).guard,
            ) && handler_is_total::<P, F>(self.new_commands[i].handler)
    }

    /// The client that the commands share.
    pub closed spec fn client(&self) -> P::Client {
        self.client
    }

    /// The state of the registry.
    pub closed spec fn view(&self) -> Registry<G, F> {
        Registry {
            commands: Seq::new(
                self.new_commands.len() as nat,
                |i: int|
                    Entry {
                        name: self.new_commands[i].name@,
                        guard: self.new_commands[i].guard,
                        handler: self.new_commands[i].handler,
                    },
            ),
            menu: match self.menu {
                Some(menu) => Some(menu@),
                None => None,
            },
        }
    }

    /// A registry without commands, with an empty menu.
    pub fn new(client: P::Client) -> (r: Self)
        ensures
            r.client() == client,
            r@.commands == Seq::<Entry<G, F>>::empty(),
            r@.menu == Some(Seq::<MenuEntry<G>>::empty()),
    {
        let r = Commands { client, menu: Some(Menu::new()), new_commands: Vec::new() };
        assert(r@.commands =~= Seq::<Entry<G, F>>::empty());
        r
    }

    /// Appends a command.
    fn push(&mut self, name: String, guard: Option<G>, handler: F)
        requires
            guard_is_total::<P, G>(guard),
            handler_is_total::<P, F>(handler),
        ensures
            final(self)@ == old(self)@.added(name@, guard, handler),
            final(self).client() == old(self).client(),
    {
        proof {
            use_type_invariant(&*self);
        }
        let ghost before = self@;
        let mut list: Vec<Command<G, F>> = Vec::new();
        core::mem::swap(&mut self.new_commands, &mut list);
        list.push(Command { name, guard, handler });
        core::mem::swap(&mut self.new_commands, &mut list);
        assert(self@.commands =~= before.added(name@, guard, handler).commands);
    }

    /// Registers the command `command`, open to everybody.
    pub fn add(&mut self, command: &str, handler: F)
        requires
            handler_is_total::<P, F>(handler),
        ensures
            final(self)@ == old(self)@.added(command@, None, handler),
            final(self).client() == old(self).client(),
    {
        self.push(command.to_owned(), None, handler);
    }

    /// Registers the command `command`, open to those whom `guard` lets in.
    pub fn add_protected(&mut self, command: &str, handler: F, guard: G)
        requires
            handler_is_total::<P, F>(handler),
            guard_is_total::<P, G>(Some(guard)),
        ensures
            final(self)@ == old(self)@.added(command@, Some(guard), handler),
            final(self).client() == old(self).client(),
    {
        self.push(command.to_owned(), Some(guard), handler);
    }

    /// Hands the menu over. There is a menu the first time only.
    pub fn take_menu(&mut self) -> (r: Option<Menu<G>>)
        ensures
            final(self)@ == old(self)@.taken(),
            final(self).client() == old(self).client(),
            match r {
                Some(menu) => old(self)@.menu == Some(menu@),
                None => old(self)@.menu is None,
            },
    {
        proof {
            use_type_invariant(&*self);
        }
        let mut menu: Option<Menu<G>> = None;
        core::mem::swap(&mut self.menu, &mut menu);
        assert(self@.commands =~= old(self)@.commands);
        menu
    }

    /// The number of registered commands.
    pub fn len(&self) -> (n: usize)
        ensures
            n == self@.commands.len(),
    {
        self.new_commands.len()
    }

    /// Dispatches the message `text`: one outcome for each registered
    /// command, in registration order.
    pub fn execute(&self, cx: &P::Context, msg: &P::Message, text: &str) -> (outs: Vec<
        Outcome<P::Error>,
    >)
        ensures
            dispatched::<P, G, F>(self@.commands, self.client(), *cx, *msg, text@, outs@),
    {
        proof {
            use_type_invariant(self);
        }
        let mut outs: Vec<Outcome<P::Error>> = Vec::new();
        let mut i: usize = 0;
        while i < self.new_commands.len()
            invariant
                i <= self.new_commands.len(),
                outs.len() == i,
                self.inv(),
                forall|j: int|
                    0 <= j < i ==> settled::<P, G, F>(
                        #[trigger] self@.commands[j],
                        self.client(),
                        *cx,
                        *msg,
                        text@,
                        outs[j],
                    ),
            decreases self.new_commands.len() - i,
        {
            let command = &self.new_commands[i];
            let ghost entry = self@.commands[i as int];
            let out = match strip_command(text, command.name.as_str()) {
                None => Outcome::NotMatched,
                Some(rest) => {
                    let (params, body) = tokenize(rest);
                    let args = Args { http: &self.client, cx, msg, params: &params, body };
                    let ghost seen = args;
                    let answer = match &command.guard {
                        Some(guard) => guard(&args),
                        None => Ok(true),
                    };
                    assert(guard_says(entry.guard, &seen, answer));
                    assert(presents(seen, self.client(), *cx, *msg, parse(rest@)));
                    match Outcome::of_guard(answer) {
                        Some(out) => out,
                        None => {
                            let done = (command.handler)(args);
                            assert(call_ensures(entry.handler, (seen,), done));
                            Outcome::of_handler(done)
                        },
                    }
                },
            };
            assert(settled::<P, G, F>(entry, self.client(), *cx, *msg, text@, out));
            outs.push(out);
            i += 1;
        }
        outs
    }
}

impl<P: Platform, G, F> Commands<P, G, F> where
    G: Fn(&Args<P>) -> Result<bool, P::Error> + Copy,
    F: Fn(Args<P>) -> Result<(), P::Error>,
 {
    /// Registers help for `cmd`.
    fn document(&mut self, cmd: &str, desc: &str, handler: F, guard: Option<G>)
        requires
            cmd@.len() >= 1,
            handler_is_total::<P, F>(handler),
            guard_is_total::<P, G>(guard),
        ensures
            final(self)@ == old(self)@.documented(cmd@, desc@, guard, handler),
            final(self).client() == old(self).client(),
    {
        proof {
            use_type_invariant(&*self);
        }
        let base = cmd.substring_char(1, cmd.unicode_len());
        let mut name = String::from_str("?help ");
        name.append(base);
        proof {
            reveal_strlit("?help ");
            assert("?help "@ =~= help_word());
            assert(cmd@.subrange(1, cmd@.len() as int) =~= cmd@.skip(1));
        }
        let mut menu: Option<Menu<G>> = None;
        core::mem::swap(&mut self.menu, &mut menu);
        let mut menu = match menu {
            Some(m) => Some(m.with(cmd, desc, guard)),
            None => None,
        };
        core::mem::swap(&mut self.menu, &mut menu);
        self.push(name, guard, handler);
    }

    /// Registers `handler` as the help of the command `cmd` and lists `cmd`
    /// in the menu under `desc`, open to everybody.
    pub fn help(&mut self, cmd: &str, desc: &str, handler: F)
        requires
            cmd@.len() >= 1,
            handler_is_total::<P, F>(handler),
        ensures
            final(self)@ == old(self)@.documented(cmd@, desc@, None, handler),
            final(self).client() == old(self).client(),
    {
        self.document(cmd, desc, handler, None);
    }

    /// Registers `handler` as the help of the command `cmd` and lists `cmd`
    /// in the menu under `desc`, open to those whom `guard` lets in.
    pub fn help_protected(&mut self, cmd: &str, desc: &str, handler: F, guard: G)
        requires
            cmd@.len() >= 1,
            handler_is_total::<P, F>(handler),
            guard_is_total::<P, G>(Some(guard)),
        ensures
            final(self)@ == old(self)@.documented(cmd@, desc@, Some(guard), handler),
            final(self).client() == old(self).client(),
    {
        self.document(cmd, desc, handler, Some(guard));
    }
}

} // verus!
