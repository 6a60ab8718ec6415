use std::cell::RefCell;
use std::rc::Rc;

use asteroids::commands::{Arg, Command, Commands, StatefulCommand};
use asteroids::input::{Input, Key, Scheme, State};

type Delegate = Box<dyn Fn(&[Arg], &u32) -> bool>;
type Boxed = StatefulCommand<u32, Delegate>;

fn command(state: u32, log: &Rc<RefCell<Vec<(u32, Vec<Arg>)>>>, answer: bool) -> Boxed {
    let log = log.clone();
    StatefulCommand::new(
        state,
        Box::new(move |args: &[Arg], state: &u32| {
            log.borrow_mut().push((*state, args.to_vec()));
            answer
        }),
    )
}

#[test]
fn commands_run_in_the_order_in_which_they_were_added() {
    let log = Rc::new(RefCell::new(Vec::new()));
    let mut commands: Commands<Boxed> = Commands::new();
    let first = commands.add("fire", command(1, &log, true));
    let second = commands.add("fire", command(2, &log, true));
    let other = commands.add("zoom", command(3, &log, true));

    assert_eq!((first.command_id, second.command_id, other.command_id), (0, 1, 2));
    assert_eq!(first.name, "fire");

    assert_eq!(commands.invoke("fire", &[Arg::Key(Key::KbdSpace)]), None);
    assert_eq!(
        *log.borrow(),
        vec![(1, vec![Arg::Key(Key::KbdSpace)]), (2, vec![Arg::Key(Key::KbdSpace)])]
    );
}

#[test]
fn a_command_that_answers_false_stops_those_behind_it() {
    let log = Rc::new(RefCell::new(Vec::new()));
    let mut commands: Commands<Boxed> = Commands::new();
    commands.add("exit", command(1, &log, true));
    commands.add("exit", command(2, &log, false));
    commands.add("exit", command(3, &log, true));

    assert_eq!(commands.invoke("exit", &[]), Some(1));
    assert_eq!(*log.borrow(), vec![(1, vec![]), (2, vec![])]);
}

#[test]
fn an_unknown_name_invokes_nothing() {
    let log = Rc::new(RefCell::new(Vec::new()));
    let mut commands: Commands<Boxed> = Commands::new();
    commands.add("exit", command(1, &log, false));
    assert_eq!(commands.invoke("exi", &[]), None);
    assert_eq!(commands.invoke("", &[]), None);
    assert!(log.borrow().is_empty());
}

#[test]
fn a_removed_command_runs_no_more() {
    let log = Rc::new(RefCell::new(Vec::new()));
    let mut commands: Commands<Boxed> = Commands::new();
    let first = commands.add("fire", command(1, &log, true));
    let second = commands.add("fire", command(2, &log, true));

    commands.remove(&first);
    commands.remove(&first);
    assert_eq!(commands.invoke("fire", &[]), None);
    assert_eq!(*log.borrow(), vec![(2, vec![])]);

    commands.remove(&second);
    log.borrow_mut().clear();
    assert_eq!(commands.invoke("fire", &[]), None);
    assert!(log.borrow().is_empty());

    let third = commands.add("fire", command(3, &log, true));
    assert_eq!(third.command_id, 2);
}

#[test]
fn an_argument_holds_a_key_with_or_without_its_state() {
    assert_eq!(Arg::from(Key::KbdA), Arg::Key(Key::KbdA));
    assert_eq!(Arg::Key(Key::KbdA).to_input(), None);
    assert_eq!(Arg::Input(Key::KbdW, State::Released).to_input(), Some((Key::KbdW, State::Released)));
}

struct Always(bool);

impl Command for Always {
    fn invoke(&self, _: &[Arg]) -> bool {
        self.0
    }
}

#[test]
fn a_command_of_the_callers_own_type_can_be_registered() {
    let mut commands: Commands<Always> = Commands::new();
    commands.add("a", Always(true));
    commands.add("a", Always(true));
    commands.add("b", Always(false));
    assert_eq!(commands.invoke("a", &[]), None);
    assert_eq!(commands.invoke("b", &[]), Some(0));
}

#[test]
fn keys_are_ordered_as_they_are_declared() {
    assert_eq!(Key::KbdSpace.ordinal(), 0);
    assert_eq!(Key::KbdArrowRight.ordinal(), 6);
    assert_eq!(Key::KbdA.ordinal(), 7);
    assert_eq!(Key::KbdZ.ordinal(), 32);
    assert_eq!(Key::Kbd0.ordinal(), 33);
    assert_eq!(Key::Kbd9.ordinal(), 42);
    assert!(Key::KbdA < Key::KbdB);
    assert!(Key::KbdZ < Key::Kbd0);
}

#[test]
fn a_key_invokes_the_commands_that_schemes_map_it_to() {
    let log = Rc::new(RefCell::new(Vec::new()));
    let mut commands: Commands<Boxed> = Commands::new();
    commands.add("player_forward", command(1, &log, true));
    commands.add("camera_follow", command(2, &log, true));
    commands.add("exit", command(3, &log, true));

    let mut input = Input::new();
    input.add_scheme(
        Scheme::default()
            .add("player_forward", &[Key::KbdW, Key::KbdArrowUp])
            .add("camera_follow", &[Key::KbdW])
            .add("exit", &[Key::KbdEscape]),
    );

    let pressed = input.dispatch(Key::KbdW, State::Pressed, &commands);
    assert_eq!(pressed, vec![None, None]);
    assert_eq!(
        *log.borrow(),
        vec![
            (2, vec![Arg::Input(Key::KbdW, State::Pressed)]),
            (1, vec![Arg::Input(Key::KbdW, State::Pressed)]),
        ]
    );

    log.borrow_mut().clear();
    assert_eq!(input.dispatch(Key::KbdArrowUp, State::Released, &commands), vec![None]);
    assert_eq!(*log.borrow(), vec![(1, vec![Arg::Input(Key::KbdArrowUp, State::Released)])]);
    assert_eq!(input.dispatch(Key::KbdQ, State::Pressed, &commands), vec![]);
}

#[test]
fn a_mapping_lasts_as_long_as_one_scheme_holds_it() {
    let log = Rc::new(RefCell::new(Vec::new()));
    let mut commands: Commands<Boxed> = Commands::new();
    commands.add("exit", command(1, &log, false));

    let mut input = Input::new();
    let first = input.add_scheme(Scheme::new().add("exit", &[Key::KbdEscape]));
    let second = input.add_scheme(Scheme::new().add("exit", &[Key::KbdEscape, Key::KbdQ, Key::KbdQ]));
    assert_eq!((first, second), (0, 1));

    assert_eq!(input.dispatch(Key::KbdEscape, State::Pressed, &commands), vec![Some(0)]);
    assert_eq!(log.borrow().len(), 1);

    input.remove_scheme(first);
    input.remove_scheme(first);
    assert_eq!(input.dispatch(Key::KbdEscape, State::Pressed, &commands), vec![Some(0)]);
    assert_eq!(input.dispatch(Key::KbdQ, State::Pressed, &commands), vec![Some(0)]);

    input.remove_scheme(second);
    input.remove_scheme(7);
    assert_eq!(input.dispatch(Key::KbdEscape, State::Pressed, &commands), vec![]);
    assert_eq!(input.dispatch(Key::KbdQ, State::Pressed, &commands), vec![]);
    assert_eq!(log.borrow().len(), 3);
}

#[test]
fn a_command_without_registration_is_skipped() {
    let commands: Commands<Boxed> = Commands::new();
    let mut input = Input::new();
    input.add_scheme(Scheme::new().add("nobody", &[Key::KbdN]));
    assert_eq!(input.dispatch(Key::KbdN, State::Pressed, &commands), vec![None]);
}
