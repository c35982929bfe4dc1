use aoc::day21::numeric_part;

#[test]
fn test_numeric_part() {
    assert_eq!(numeric_part(&['0', '2', '9', 'A']), 29);
}

#[test]
fn numeric_part_skips_what_is_no_digit() {
    assert_eq!(numeric_part(&[]), 0);
    assert_eq!(numeric_part(&['A']), 0);
    assert_eq!(numeric_part(&['9', '8', '0', 'A']), 980);
    assert_eq!(numeric_part(&['1', 'x', '2', 'y', '3']), 123);
    assert_eq!(
        numeric_part(&['4', '2', '9', '4', '9', '6', '7', '2', '9', '5']),
        4294967295
    );
}

use aoc::day21::{bfs, decode, encode, parse, q1, Dpad, Keypad, Output, State};

#[test]
fn test_adv() {
    for (state, expected) in [
        (
            State {
                keys_pressed: Default::default(),
                dpad_outer: Dpad::A,
                dpad_inner: Dpad::A,
                keypad: Keypad::K3,
            },
            Some(State {
                keys_pressed: vec!['3'],
                dpad_outer: Dpad::A,
                dpad_inner: Dpad::A,
                keypad: Keypad::K3,
            }),
        ),
        (Default::default(), Some(State { keys_pressed: vec!['A'], ..Default::default() })),
    ] {
        let actual = state.clone().advance(Dpad::A);
        assert_eq!(actual, expected);
    }
}

#[test]
fn test_edges() {
    assert_eq!(
        State::default().successors(&['1', '2', '3', '4']),
        vec![
            (Dpad::Down, State { dpad_outer: Dpad::Right, ..Default::default() }),
            (Dpad::Left, State { dpad_outer: Dpad::Up, ..Default::default() })
        ]
    );
}

#[test]
fn fingers_move_to_the_next_key_or_not_at_all() {
    assert_eq!(Dpad::Up.update(Dpad::Right), Some(Output { new_position: Dpad::A, key_pressed: None }));
    assert_eq!(Dpad::Up.update(Dpad::Left), None);
    assert_eq!(Dpad::Left.update(Dpad::Up), None);
    assert_eq!(Dpad::Left.update(Dpad::Right), Some(Output { new_position: Dpad::Down, key_pressed: None }));
    assert_eq!(Dpad::Right.update(Dpad::A), Some(Output::pressed(Dpad::Right, Dpad::A)));
    assert_eq!(Keypad::K7.update(Dpad::Up), None);
    assert_eq!(Keypad::K1.update(Dpad::Down), None);
    assert_eq!(Keypad::K0.update(Dpad::Left), None);
    assert_eq!(Keypad::K0.update(Dpad::Up), Some(Output { new_position: Keypad::K2, key_pressed: None }));
    assert_eq!(Keypad::A.update(Dpad::Left), Some(Output { new_position: Keypad::K0, key_pressed: None }));
    assert_eq!(Keypad::K5.update(Dpad::A), Some(Output::pressed(Keypad::K5, '5')));
    assert_eq!(Keypad::A.to_char(), 'A');
    assert_eq!(Keypad::K9.to_char(), '9');
    assert_eq!(Dpad::all_states(), [Dpad::Up, Dpad::Down, Dpad::Left, Dpad::Right, Dpad::A]);
}

#[test]
fn a_press_that_moves_a_finger_off_its_pad_is_no_move() {
    assert_eq!(State::default().advance(Dpad::Up), None);
    assert_eq!(State::default().advance(Dpad::Right), None);
    let moved = State::default().advance(Dpad::Left).unwrap();
    assert_eq!(moved, State { dpad_outer: Dpad::Up, ..Default::default() });
    assert_eq!(moved.keys(), &[] as &[char]);
}

#[test]
fn states_are_numbered_and_found_again() {
    let code = ['0', '2', '9', 'A'];
    let state = State {
        keys_pressed: vec!['0', '2'],
        dpad_outer: Dpad::Left,
        dpad_inner: Dpad::A,
        keypad: Keypad::K7,
    };
    let id = encode(&state);
    assert_eq!(id, ((2 * 5 + 2) * 5 + 4) * 11 + 7);
    assert_eq!(decode(id, &code), state);
    assert_eq!(decode(0, &code), State { dpad_outer: Dpad::Up, dpad_inner: Dpad::Up, keypad: Keypad::K0, keys_pressed: vec![] });
    assert_eq!(encode(&State::default()), 4 * 55 + 4 * 11 + 10);
}

#[test]
fn search_finds_the_fewest_presses() {
    // One press of A goes all the way down to the keypad.
    let found = bfs(State::default(), &['A']);
    assert_eq!(found, Some((1, State { keys_pressed: vec!['A'], ..Default::default() })));
    // Nothing to type.
    assert_eq!(bfs(State::default(), &[]), Some((0, State::default())));
    // The keypad finger cannot be moved from where it is.
    assert_eq!(bfs(State::default(), &['0']), None);
    let start = State { keypad: Keypad::K4, ..Default::default() };
    assert_eq!(
        bfs(start, &['4', '4']),
        Some((2, State { keys_pressed: vec!['4', '4'], keypad: Keypad::K4, ..Default::default() }))
    );
}

#[test]
fn complexity_is_number_times_presses() {
    assert_eq!(q1(&vec![]), Some(0));
    assert_eq!(q1(&vec![vec!['A']]), Some(0));
    assert_eq!(q1(&vec![vec!['0', '2', '9', 'A']]), None);
    assert_eq!(parse("029A\n980A"), vec![vec!['0', '2', '9', 'A'], vec!['9', '8', '0', 'A']]);
    assert_eq!(parse(""), Vec::<Vec<char>>::new());
}

#[test]
fn states_and_keys_are_written_out() {
    assert_eq!(State::default().render(), "A A A []");
    let state = State {
        keys_pressed: vec!['0', '2'],
        dpad_outer: Dpad::Left,
        dpad_inner: Dpad::Up,
        keypad: Keypad::K7,
    };
    assert_eq!(state.render(), "L U 7 [02]");
    let letters: String = Dpad::all_states().iter().map(|key| key.to_char()).collect();
    assert_eq!(letters, "UDLRA");
}
