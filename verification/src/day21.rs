//! Door codes typed on a keypad by a robot, which is steered by a robot
//! with a directional pad, which is steered by another one, which a human
//! steers.
use crate::bfs::{bfs as search, is_graph, links, nearest, none_in_reach};
use crate::scan::string_push;
use vstd::prelude::*;
use vstd::string::StrSliceExecFns;

verus! {

/// Whether `ch` is one of the digits `0` to `9`.
pub open spec fn is_digit(ch: char) -> bool {
    '0' <= ch <= '9'
}

/// The number that the digit `ch` stands for.
pub open spec fn digit_value(ch: char) -> nat {
    (ch as u32 - '0' as u32) as nat
}

/// How many digits `code` holds.
pub open spec fn digit_chars(code: Seq<char>) -> nat
    decreases code.len(),
{
    if code.len() == 0 {
        0
    } else if is_digit(code.last()) {
        digit_chars(code.drop_last()) + 1
    } else {
        digit_chars(code.drop_last())
    }
}

/// The number written by the digits of `code`, read in order and skipping
/// every other character.
pub open spec fn numeric_value(code: Seq<char>) -> nat
    decreases code.len(),
{
    if code.len() == 0 {
        0
    } else if is_digit(code.last()) {
        numeric_value(code.drop_last()) * 10 + digit_value(code.last())
    } else {
        numeric_value(code.drop_last())
    }
}

/// Ten to the power `k`.
pub open spec fn tens(k: nat) -> nat
    decreases k,
{
    if k == 0 {
        1
    } else {
        10 * tens((k - 1) as nat)
    }
}

/// A code with `k` digits writes a number below ten to the power `k`.
pub proof fn lemma_numeric_value_bound(code: Seq<char>)
    ensures
        numeric_value(code) < tens(digit_chars(code)),
    decreases code.len(),
{
    if code.len() > 0 {
        lemma_numeric_value_bound(code.drop_last());
    }
}

/// The number written by the digits of `code`.
pub fn numeric_part(code: &[char]) -> (value: usize)
    requires
        digit_chars(code@) <= 10,
        numeric_value(code@) <= u32::MAX,
    ensures
        value == numeric_value(code@),
{
    let mut value: u64 = 0;
    let mut i: usize = 0;
    while i < code.len()
        invariant
            i <= code@.len(),
            value == numeric_value(code@.take(i as int)),
            digit_chars(code@.take(i as int)) <= digit_chars(code@),
            digit_chars(code@) <= 10,
        decreases code@.len() - i,
    {
        let ch = code[i];
        proof {
            let next = code@.take(i + 1);
            assert(next.drop_last() == code@.take(i as int));
            assert(next.last() == ch);
            lemma_numeric_value_bound(code@.take(i as int));
            lemma_digit_chars_prefix(code@, (i + 1) as nat);
            lemma_tens_monotonic(digit_chars(code@.take(i as int)), 10);
            assert(tens(10) == 10_000_000_000nat) by {
                reveal_with_fuel(tens, 11);
            }
        }
        if '0' <= ch && ch <= '9' {
            value = value * 10 + (ch as u32 - '0' as u32) as u64;
        }
        i += 1;
    }
    proof {
        assert(code@.take(code@.len() as int) == code@);
    }
    value as usize
}

/// A prefix of a code holds no more digits than the code.
pub proof fn lemma_digit_chars_prefix(code: Seq<char>, n: nat)
    requires
        n <= code.len(),
    ensures
        digit_chars(code.take(n as int)) <= digit_chars(code),
    decreases code.len(),
{
    if n < code.len() {
        lemma_digit_chars_prefix(code.drop_last(), n);
        assert(code.drop_last().take(n as int) == code.take(n as int));
    } else {
        assert(code.take(n as int) == code);
    }
}

/// Powers of ten grow with the exponent.
pub proof fn lemma_tens_monotonic(a: nat, b: nat)
    requires
        a <= b,
    ensures
        1 <= tens(a) <= tens(b),
    decreases b,
{
    if b > 0 {
        if a < b {
            lemma_tens_monotonic(a, (b - 1) as nat);
        } else {
            lemma_tens_monotonic((a - 1) as nat, (b - 1) as nat);
        }
    }
}

/// A key of a directional pad:
///
/// ```text
///     +---+---+
///     | ^ | A |
/// +---+---+---+
/// | < | v | > |
/// +---+---+---+
/// ```
#[derive(Clone, Copy, Debug, PartialEq, Eq, Structural, Hash, PartialOrd, Ord)]
pub enum Dpad {
    Up,
    Down,
    Left,
    Right,
    A,
}

/// A key of the numeric keypad:
///
/// ```text
/// +---+---+---+
/// | 7 | 8 | 9 |
/// +---+---+---+
/// | 4 | 5 | 6 |
/// +---+---+---+
/// | 1 | 2 | 3 |
/// +---+---+---+
///     | 0 | A |
///     +---+---+
/// ```
#[derive(Clone, Copy, Debug, PartialEq, Eq, Structural, Hash, PartialOrd, Ord)]
pub enum Keypad {
    K0,
    K1,
    K2,
    K3,
    K4,
    K5,
    K6,
    K7,
    K8,
    K9,
    A,
}

/// What a press on the steering pad does to a robot: where its finger
/// points afterwards, and which key it has pressed, if any.
#[derive(Clone, Copy, Debug, PartialEq, Eq, Structural)]
pub struct Output<S, T> {
    pub new_position: S,
    pub key_pressed: Option<T>,
}

impl<S, T> Output<S, T> {
    /// The outcome of a press that moves the finger to `new_position` and
    /// presses the button `pressed` of the pad below.
    pub fn pressed(new_position: S, pressed: T) -> (out: Self)
        ensures
            out == (Output { new_position, key_pressed: Some(pressed) }),
    {
        Self { new_position, key_pressed: Some(pressed) }
    }
}

impl Default for Dpad {
    fn default() -> (d: Dpad)
        ensures
            d == Dpad::A,
    {
        Dpad::A
    }
}

impl Default for Keypad {
    fn default() -> (k: Keypad)
        ensures
            k == Keypad::A,
    {
        Keypad::A
    }
}

impl Dpad {
    /// The letter that shows the key.
    pub open spec fn letter(self) -> char {
        match self {
            Dpad::Up => 'U',
            Dpad::Down => 'D',
            Dpad::Left => 'L',
            Dpad::Right => 'R',
            Dpad::A => 'A',
        }
    }

    /// The letter that shows the key.
    pub fn to_char(self) -> (ch: char)
        ensures
            ch == self.letter(),
    {
        match self {
            Dpad::Up => 'U',
            Dpad::Down => 'D',
            Dpad::Left => 'L',
            Dpad::Right => 'R',
            Dpad::A => 'A',
        }
    }

    /// The column and the row of the key.
    pub open spec fn place(self) -> (int, int) {
        match self {
            Dpad::Up => (1, 0),
            Dpad::A => (2, 0),
            Dpad::Left => (0, 1),
            Dpad::Down => (1, 1),
            Dpad::Right => (2, 1),
        }
    }

    /// The key at the given column and row, if there is one.
    pub open spec fn at(x: int, y: int) -> Option<Dpad> {
        if x == 1 && y == 0 {
            Some(Dpad::Up)
        } else if x == 2 && y == 0 {
            Some(Dpad::A)
        } else if x == 0 && y == 1 {
            Some(Dpad::Left)
        } else if x == 1 && y == 1 {
            Some(Dpad::Down)
        } else if x == 2 && y == 1 {
            Some(Dpad::Right)
        } else {
            None
        }
    }

    /// The change of column and row that a press of the key asks for.
    pub open spec fn shift(self) -> (int, int) {
        match self {
            Dpad::Up => (0, -1),
            Dpad::Down => (0, 1),
            Dpad::Left => (-1, 0),
            Dpad::Right => (1, 0),
            Dpad::A => (0, 0),
        }
    }

    /// The number of the key in [`Dpad::all_states`].
    pub open spec fn ordinal(self) -> int {
        match self {
            Dpad::Up => 0,
            Dpad::Down => 1,
            Dpad::Left => 2,
            Dpad::Right => 3,
            Dpad::A => 4,
        }
    }

    /// All keys, in a fixed order.
    pub open spec fn spec_all_states() -> Seq<Dpad> {
        seq![Dpad::Up, Dpad::Down, Dpad::Left, Dpad::Right, Dpad::A]
    }

    /// What a press of `button` on the steering pad does to a robot whose
    /// finger points at `self`: a direction moves the finger to the next key
    /// that way, if there is one, and `A` makes the robot press `A` on the pad
    /// below.
    pub open spec fn spec_update(self, button: Dpad) -> Option<Output<Dpad, Dpad>> {
        if button == Dpad::A {
            Some(Output { new_position: self, key_pressed: Some(button) })
        } else {
            match Dpad::at(self.place().0 + button.shift().0, self.place().1 + button.shift().1) {
                Some(next) => Some(Output { new_position: next, key_pressed: None }),
                None => None,
            }
        }
    }

    /// The five buttons of a directional pad.
    pub fn all_states() -> (all: [Dpad; 5])
        ensures
            all@ == Dpad::spec_all_states(),
    {
        [Self::Up, Self::Down, Self::Left, Self::Right, Self::A]
    }

    /// The key with the given number in [`Dpad::all_states`].
    pub fn from_index(i: usize) -> (key: Dpad)
        requires
            i < 5,
        ensures
            key.ordinal() == i,
    {
        if i == 0 {
            Dpad::Up
        } else if i == 1 {
            Dpad::Down
        } else if i == 2 {
            Dpad::Left
        } else if i == 3 {
            Dpad::Right
        } else {
            Dpad::A
        }
    }

    /// The number of the key in [`Dpad::all_states`].
    pub fn index(self) -> (i: usize)
        ensures
            i == self.ordinal(),
            i < 5,
    {
        match self {
            Dpad::Up => 0,
            Dpad::Down => 1,
            Dpad::Left => 2,
            Dpad::Right => 3,
            Dpad::A => 4,
        }
    }

    /// The D-pad controlling the robot on this D-pad was pressed.
    /// What is the new position of the robot's finger?
    /// And did the robot press any key? If so, which one?
    #[must_use]
    pub fn update(self, button: Dpad) -> (out: Option<Output<Dpad, Dpad>>)
        ensures
            out == self.spec_update(button),
    {
        match (self, button) {
            (Dpad::Up, Dpad::Up) => None,
            (Dpad::Up, Dpad::Down) => Some(Output { new_position: Dpad::Down, key_pressed: None }),
            (Dpad::Up, Dpad::Left) => None,
            (Dpad::Up, Dpad::Right) => Some(Output { new_position: Dpad::A, key_pressed: None }),
            (Dpad::Down, Dpad::Up) => Some(Output { new_position: Dpad::Up, key_pressed: None }),
            (Dpad::Down, Dpad::Down) => None,
            (Dpad::Down, Dpad::Left) => Some(Output { new_position: Dpad::Left, key_pressed: None }),
            (Dpad::Down, Dpad::Right) => Some(
                Output { new_position: Dpad::Right, key_pressed: None },
            ),
            (Dpad::Left, Dpad::Up) => None,
            (Dpad::Left, Dpad::Down) => None,
            (Dpad::Left, Dpad::Left) => None,
            (Dpad::Left, Dpad::Right) => Some(Output { new_position: Dpad::Down, key_pressed: None }),
            (Dpad::Right, Dpad::Up) => Some(Output { new_position: Dpad::A, key_pressed: None }),
            (Dpad::Right, Dpad::Down) => None,
            (Dpad::Right, Dpad::Left) => Some(Output { new_position: Dpad::Down, key_pressed: None }),
            (Dpad::Right, Dpad::Right) => None,
            (Dpad::A, Dpad::Up) => None,
            (Dpad::A, Dpad::Down) => Some(Output { new_position: Dpad::Right, key_pressed: None }),
            (Dpad::A, Dpad::Left) => Some(Output { new_position: Dpad::Up, key_pressed: None }),
            (Dpad::A, Dpad::Right) => None,
            (_, Dpad::A) => Some(Output::pressed(self, button)),
        }
    }
}

impl Keypad {
    /// The column and the row of the key.
    pub open spec fn place(self) -> (int, int) {
        match self {
            Keypad::K7 => (0, 0),
            Keypad::K8 => (1, 0),
            Keypad::K9 => (2, 0),
            Keypad::K4 => (0, 1),
            Keypad::K5 => (1, 1),
            Keypad::K6 => (2, 1),
            Keypad::K1 => (0, 2),
            Keypad::K2 => (1, 2),
            Keypad::K3 => (2, 2),
            Keypad::K0 => (1, 3),
            Keypad::A => (2, 3),
        }
    }

    /// The key at the given column and row, if there is one.
    pub open spec fn at(x: int, y: int) -> Option<Keypad> {
        if x == 0 && y == 0 {
            Some(Keypad::K7)
        } else if x == 1 && y == 0 {
            Some(Keypad::K8)
        } else if x == 2 && y == 0 {
            Some(Keypad::K9)
        } else if x == 0 && y == 1 {
            Some(Keypad::K4)
        } else if x == 1 && y == 1 {
            Some(Keypad::K5)
        } else if x == 2 && y == 1 {
            Some(Keypad::K6)
        } else if x == 0 && y == 2 {
            Some(Keypad::K1)
        } else if x == 1 && y == 2 {
            Some(Keypad::K2)
        } else if x == 2 && y == 2 {
            Some(Keypad::K3)
        } else if x == 1 && y == 3 {
            Some(Keypad::K0)
        } else if x == 2 && y == 3 {
            Some(Keypad::A)
        } else {
            None
        }
    }

    /// The character on the key.
    pub open spec fn spec_to_char(self) -> char {
        match self {
            Keypad::K0 => '0',
            Keypad::K1 => '1',
            Keypad::K2 => '2',
            Keypad::K3 => '3',
            Keypad::K4 => '4',
            Keypad::K5 => '5',
            Keypad::K6 => '6',
            Keypad::K7 => '7',
            Keypad::K8 => '8',
            Keypad::K9 => '9',
            Keypad::A => 'A',
        }
    }

    /// The number of the key: its digit, and ten for `A`.
    pub open spec fn ordinal(self) -> int {
        match self {
            Keypad::K0 => 0,
            Keypad::K1 => 1,
            Keypad::K2 => 2,
            Keypad::K3 => 3,
            Keypad::K4 => 4,
            Keypad::K5 => 5,
            Keypad::K6 => 6,
            Keypad::K7 => 7,
            Keypad::K8 => 8,
            Keypad::K9 => 9,
            Keypad::A => 10,
        }
    }

    /// What a press of `button` on the steering pad does to the robot at
    /// the keypad whose finger points at `self`: a direction moves the finger
    /// to the next key that way, if there is one, and `A` makes the robot
    /// press the key.
    pub open spec fn spec_update(self, button: Dpad) -> Option<Output<Keypad, char>> {
        if button == Dpad::A {
            Some(Output { new_position: self, key_pressed: Some(self.spec_to_char()) })
        } else {
            match Keypad::at(self.place().0 + button.shift().0, self.place().1 + button.shift().1) {
                Some(next) => Some(Output { new_position: next, key_pressed: None }),
                None => None,
            }
        }
    }

    /// The character that stands on the button.
    pub fn to_char(self) -> (ch: char)
        ensures
            ch == self.spec_to_char(),
    {
        match self {
            Keypad::K0 => '0',
            Keypad::K1 => '1',
            Keypad::K2 => '2',
            Keypad::K3 => '3',
            Keypad::K4 => '4',
            Keypad::K5 => '5',
            Keypad::K6 => '6',
            Keypad::K7 => '7',
            Keypad::K8 => '8',
            Keypad::K9 => '9',
            Keypad::A => 'A',
        }
    }

    /// The key with the given number.
    pub fn from_index(i: usize) -> (key: Keypad)
        requires
            i < 11,
        ensures
            key.ordinal() == i,
    {
        if i == 0 {
            Keypad::K0
        } else if i == 1 {
            Keypad::K1
        } else if i == 2 {
            Keypad::K2
        } else if i == 3 {
            Keypad::K3
        } else if i == 4 {
            Keypad::K4
        } else if i == 5 {
            Keypad::K5
        } else if i == 6 {
            Keypad::K6
        } else if i == 7 {
            Keypad::K7
        } else if i == 8 {
            Keypad::K8
        } else if i == 9 {
            Keypad::K9
        } else {
            Keypad::A
        }
    }

    /// The number of the key.
    pub fn index(self) -> (i: usize)
        ensures
            i == self.ordinal(),
            i < 11,
    {
        match self {
            Keypad::K0 => 0,
            Keypad::K1 => 1,
            Keypad::K2 => 2,
            Keypad::K3 => 3,
            Keypad::K4 => 4,
            Keypad::K5 => 5,
            Keypad::K6 => 6,
            Keypad::K7 => 7,
            Keypad::K8 => 8,
            Keypad::K9 => 9,
            Keypad::A => 10,
        }
    }

    /// The D-pad controlling the robot on this keypad was pressed.
    /// What is the new position of the robot's finger?
    /// And did the robot press any key? If so, which one?
    #[must_use]
    pub fn update(self, button: Dpad) -> (out: Option<Output<Keypad, char>>)
        ensures
            out == self.spec_update(button),
    {
        let moved = |key: Keypad| -> (out: Option<Output<Keypad, char>>)
            ensures
                out == Some(Output { new_position: key, key_pressed: None::<char> }),
            { Some(Output { new_position: key, key_pressed: None }) };
        match (self, button) {
            (Keypad::K0, Dpad::Up) => moved(Self::K2),
            (Keypad::K0, Dpad::Down) => None,
            (Keypad::K0, Dpad::Left) => None,
            (Keypad::K0, Dpad::Right) => moved(Self::A),
            (Keypad::K1, Dpad::Up) => moved(Self::K4),
            (Keypad::K1, Dpad::Down) => None,
            (Keypad::K1, Dpad::Left) => None,
            (Keypad::K1, Dpad::Right) => moved(Self::K2),
            (Keypad::K2, Dpad::Up) => moved(Self::K5),
            (Keypad::K2, Dpad::Down) => moved(Self::K0),
            (Keypad::K2, Dpad::Left) => moved(Self::K1),
            (Keypad::K2, Dpad::Right) => moved(Self::K3),
            (Keypad::K3, Dpad::Up) => moved(Self::K6),
            (Keypad::K3, Dpad::Down) => moved(Self::A),
            (Keypad::K3, Dpad::Left) => moved(Self::K2),
            (Keypad::K3, Dpad::Right) => None,
            (Keypad::K4, Dpad::Up) => moved(Self::K7),
            (Keypad::K4, Dpad::Down) => moved(Self::K1),
            (Keypad::K4, Dpad::Left) => None,
            (Keypad::K4, Dpad::Right) => moved(Self::K5),
            (Keypad::K5, Dpad::Up) => moved(Self::K8),
            (Keypad::K5, Dpad::Down) => moved(Self::K2),
            (Keypad::K5, Dpad::Left) => moved(Self::K4),
            (Keypad::K5, Dpad::Right) => moved(Self::K6),
            (Keypad::K6, Dpad::Up) => moved(Self::K9),
            (Keypad::K6, Dpad::Down) => moved(Self::K3),
            (Keypad::K6, Dpad::Left) => moved(Self::K5),
            (Keypad::K6, Dpad::Right) => None,
            (Keypad::K7, Dpad::Up) => None,
            (Keypad::K7, Dpad::Down) => moved(Self::K4),
            (Keypad::K7, Dpad::Left) => None,
            (Keypad::K7, Dpad::Right) => moved(Self::K8),
            (Keypad::K8, Dpad::Up) => None,
            (Keypad::K8, Dpad::Down) => moved(Self::K5),
            (Keypad::K8, Dpad::Left) => moved(Self::K7),
            (Keypad::K8, Dpad::Right) => moved(Self::K9),
            (Keypad::K9, Dpad::Up) => None,
            (Keypad::K9, Dpad::Down) => moved(Self::K6),
            (Keypad::K9, Dpad::Left) => moved(Self::K8),
            (Keypad::K9, Dpad::Right) => None,
            (Keypad::A, Dpad::Up) => moved(Self::K3),
            (Keypad::A, Dpad::Down) => None,
            (Keypad::A, Dpad::Left) => moved(Self::K0),
            (Keypad::A, Dpad::Right) => None,
            (k, Dpad::A) => Some(Output::pressed(self, k.to_char())),
        }
    }
}

/// What all 3 robots are pointing at, and the keys typed so far.
#[derive(Debug, PartialEq, Eq)]
pub struct State {
    pub keys_pressed: Vec<char>,
    pub dpad_outer: Dpad,
    pub dpad_inner: Dpad,
    pub keypad: Keypad,
}

/// A state as plain values.
#[verifier::ext_equal]
pub struct StateView {
    pub keys: Seq<char>,
    pub outer: Dpad,
    pub inner: Dpad,
    pub keypad: Keypad,
}

impl View for State {
    type V = StateView;

    open spec fn view(&self) -> StateView {
        StateView {
            keys: self.keys_pressed@,
            outer: self.dpad_outer,
            inner: self.dpad_inner,
            keypad: self.keypad,
        }
    }
}

impl StateView {
    /// The state written out: the letters of the two steering pads, the key
    /// of the keypad, and the keys typed so far in square brackets.
    pub open spec fn shown(self) -> Seq<char> {
        seq![self.outer.letter(), ' ', self.inner.letter(), ' ', self.keypad.spec_to_char(), ' ', '[']
            + self.keys + seq![']']
    }
}

impl State {
    /// Writes the state out, as in `A < 7 [02]`.
    pub fn render(&self) -> (text: String)
        ensures
            text@ == self@.shown(),
    {
        let mut text = String::new();
        string_push(&mut text, self.dpad_outer.to_char());
        string_push(&mut text, ' ');
        string_push(&mut text, self.dpad_inner.to_char());
        string_push(&mut text, ' ');
        string_push(&mut text, self.keypad.to_char());
        string_push(&mut text, ' ');
        string_push(&mut text, '[');
        let ghost head = text@;
        let mut i: usize = 0;
        while i < self.keys_pressed.len()
            invariant
                i <= self.keys_pressed@.len(),
                text@ == head + self.keys_pressed@.take(i as int),
            decreases self.keys_pressed@.len() - i,
        {
            string_push(&mut text, self.keys_pressed[i]);
            proof {
                assert(self.keys_pressed@.take(i + 1) == self.keys_pressed@.take(i as int).push(
                    self.keys_pressed@[i as int],
                ));
            }
            i += 1;
        }
        string_push(&mut text, ']');
        proof {
            assert(self.keys_pressed@.take(i as int) == self.keys_pressed@);
            assert(text@ =~= self@.shown());
        }
        text
    }
}

impl Default for State {
    fn default() -> (state: State)
        ensures
            state@ == (StateView {
                keys: Seq::empty(),
                outer: Dpad::A,
                inner: Dpad::A,
                keypad: Keypad::A,
            }),
    {
        State {
            keys_pressed: Vec::new(),
            dpad_outer: Dpad::A,
            dpad_inner: Dpad::A,
            keypad: Keypad::A,
        }
    }
}

impl Clone for State {
    fn clone(&self) -> (copy: State)
        ensures
            copy@ == self@,
    {
        let mut keys: Vec<char> = Vec::with_capacity(self.keys_pressed.len());
        let mut i: usize = 0;
        while i < self.keys_pressed.len()
            invariant
                i <= self.keys_pressed@.len(),
                keys@ == self.keys_pressed@.take(i as int),
            decreases self.keys_pressed@.len() - i,
        {
            keys.push(self.keys_pressed[i]);
            proof {
                assert(keys@ =~= self.keys_pressed@.take(i + 1));
            }
            i += 1;
        }
        proof {
            assert(self.keys_pressed@.take(self.keys_pressed@.len() as int) == self.keys_pressed@);
        }
        State {
            keys_pressed: keys,
            dpad_outer: self.dpad_outer,
            dpad_inner: self.dpad_inner,
            keypad: self.keypad,
        }
    }
}

/// The state after the human presses `choice`: the press moves the finger
/// of the outer robot or makes it press a key, which does the same to the
/// inner robot, which does the same to the robot at the keypad. The result is
/// `None` when a finger would leave its pad.
pub open spec fn spec_advance(s: StateView, choice: Dpad) -> Option<StateView> {
    match s.outer.spec_update(choice) {
        None => None,
        Some(first) => {
            let s1 = StateView { outer: first.new_position, ..s };
            match first.key_pressed {
                None => Some(s1),
                Some(outer_key) => match s.inner.spec_update(outer_key) {
                    None => None,
                    Some(second) => {
                        let s2 = StateView { inner: second.new_position, ..s1 };
                        match second.key_pressed {
                            None => Some(s2),
                            Some(inner_key) => match s.keypad.spec_update(inner_key) {
                                None => None,
                                Some(third) => {
                                    let s3 = StateView { keypad: third.new_position, ..s2 };
                                    match third.key_pressed {
                                        Some(key) => Some(
                                            StateView { keys: s3.keys.push(key), ..s3 },
                                        ),
                                        None => Some(s3),
                                    }
                                },
                            },
                        }
                    },
                },
            }
        },
    }
}

/// Whether `keys` is the start of `code`.
pub open spec fn is_start_of(keys: Seq<char>, code: Seq<char>) -> bool {
    keys.len() <= code.len() && forall|i: int| 0 <= i < keys.len() ==> #[trigger] keys[i] == code[i]
}

/// The presses among the first `k` keys of the pad, each with the state it
/// leads to, that leave every finger on its pad and the keys typed a start of
/// `code`.
pub open spec fn spec_successors(s: StateView, code: Seq<char>, k: int) -> Seq<(Dpad, StateView)>
    decreases k,
{
    if k <= 0 {
        Seq::empty()
    } else {
        let choice = Dpad::spec_all_states()[k - 1];
        let before = spec_successors(s, code, k - 1);
        match spec_advance(s, choice) {
            Some(next) => if is_start_of(next.keys, code) {
                before.push((choice, next))
            } else {
                before
            },
            None => before,
        }
    }
}

/// What the pairs hold, as plain values.
pub open spec fn pair_views(pairs: Seq<(Dpad, State)>) -> Seq<(Dpad, StateView)> {
    Seq::new(pairs.len(), |i: int| (pairs[i].0, pairs[i].1@))
}

/// Whether `keys` is the start of `code`.
pub fn starts_with(code: &[char], keys: &[char]) -> (is_start: bool)
    ensures
        is_start == is_start_of(keys@, code@),
{
    if keys.len() > code.len() {
        return false;
    }
    let mut i: usize = 0;
    while i < keys.len()
        invariant
            keys@.len() <= code@.len(),
            i <= keys@.len(),
            forall|j: int| 0 <= j < i ==> #[trigger] keys@[j] == code@[j],
        decreases keys@.len() - i,
    {
        if keys[i] != code[i] {
            return false;
        }
        i += 1;
    }
    true
}

impl State {
    /// The states that one press of the human leads to, each with the button
    /// pressed. A press that moves a finger off its pad, or that types a key
    /// that `code` does not ask for next, leads nowhere.
    pub fn successors(self, code: &[char]) -> (next: Vec<(Dpad, State)>)
        ensures
            pair_views(next@) == spec_successors(self@, code@, 5),
    {
        let all = Dpad::all_states();
        let mut next: Vec<(Dpad, State)> = Vec::new();
        let mut k: usize = 0;
        while k < 5
            invariant
                all@ == Dpad::spec_all_states(),
                k <= 5,
                pair_views(next@) == spec_successors(self@, code@, k as int),
            decreases 5 - k,
        {
            let human_choice = all[k];
            let ghost had = next@;
            match self.clone().advance(human_choice) {
                Some(new_state) => {
                    if starts_with(code, new_state.keys()) {
                        next.push((human_choice, new_state));
                        proof {
                            assert(pair_views(next@) =~= pair_views(had).push(
                                (human_choice, new_state@),
                            ));
                        }
                    }
                },
                None => {},
            }
            k += 1;
        }
        next
    }

    /// The keys typed so far.
    pub fn keys(&self) -> (keys: &[char])
        ensures
            keys@ == self.keys_pressed@,
    {
        self.keys_pressed.as_slice()
    }

    /// The state after the human presses `human_choice`, or `None` when a
    /// finger would leave its pad.
    pub fn advance(self, human_choice: Dpad) -> (next: Option<Self>)
        ensures
            match next {
                Some(state) => spec_advance(self@, human_choice) == Some(state@),
                None => spec_advance(self@, human_choice).is_none(),
            },
    {
        let ghost before = self@;
        let mut new_state = self;
        // Human pressed a key which controls the outer dpad robot.
        let first = match new_state.dpad_outer.update(human_choice) {
            Some(out) => out,
            None => {
                return None;
            },
        };
        let dpad_inner = new_state.dpad_inner;
        let keypad = new_state.keypad;
        new_state.dpad_outer = first.new_position;
        // Did the outer dpad robot change the inner dpad robot?
        // If not, we can return now.
        let outer_key_pressed = match first.key_pressed {
            Some(key) => key,
            None => {
                assert(new_state@ =~= (StateView { outer: first.new_position, ..before }));
                return Some(new_state);
            },
        };
        // If so, change the inner dpad robot.
        let second = match dpad_inner.update(outer_key_pressed) {
            Some(out) => out,
            None => {
                return None;
            },
        };
        new_state.dpad_inner = second.new_position;
        // Did the inner dpad robot change the keypad robot?
        // If not, we can return now.
        let inner_key_pressed = match second.key_pressed {
            Some(key) => key,
            None => {
                assert(new_state@ =~= (StateView {
                    outer: first.new_position,
                    inner: second.new_position,
                    ..before
                }));
                return Some(new_state);
            },
        };
        // If so, change the keyboard robot.
        let third = match keypad.update(inner_key_pressed) {
            Some(out) => out,
            None => {
                return None;
            },
        };
        new_state.keypad = third.new_position;
        // Did the keypad robot press anything?
        if let Some(key) = third.key_pressed {
            new_state.keys_pressed.push(key);
        }
        assert(new_state@ =~= spec_advance(before, human_choice).unwrap());
        Some(new_state)
    }
}

/// Reads the door codes: one from each line, character by character.
pub fn parse(input: &str) -> (codes: Vec<Vec<char>>)
    ensures
        codes@.len() == char_lines(input@).len(),
        forall|i: int| 0 <= i < codes@.len() ==> (#[trigger] codes@[i])@ == char_lines(input@)[i],
{
    let mut codes: Vec<Vec<char>> = Vec::new();
    let mut current: Vec<char> = Vec::new();
    let n = input.unicode_len();
    let mut i: usize = 0;
    while i < n
        invariant
            n == input@.len(),
            i <= n,
            codes@.len() == closed_char_lines(input@.take(i as int)).len(),
            forall|j: int|
                0 <= j < codes@.len() ==> (#[trigger] codes@[j])@ == closed_char_lines(
                    input@.take(i as int),
                )[j],
            current@ == open_char_line(input@.take(i as int)),
        decreases n - i,
    {
        let ch = input.get_char(i);
        proof {
            let next = input@.take(i + 1);
            assert(next.drop_last() == input@.take(i as int));
            assert(next.last() == ch);
        }
        if ch == '\n' {
            codes.push(current);
            current = Vec::new();
        } else {
            current.push(ch);
        }
        i += 1;
    }
    proof {
        assert(input@.take(input@.len() as int) == input@);
    }
    if current.len() > 0 {
        codes.push(current);
    }
    codes
}

/// The characters of `text` behind its last line end.
pub open spec fn open_char_line(text: Seq<char>) -> Seq<char>
    decreases text.len(),
{
    if text.len() == 0 || text.last() == '\n' {
        Seq::empty()
    } else {
        open_char_line(text.drop_last()).push(text.last())
    }
}

/// The lines of `text` that a line end closes.
pub open spec fn closed_char_lines(text: Seq<char>) -> Seq<Seq<char>>
    decreases text.len(),
{
    if text.len() == 0 {
        Seq::empty()
    } else if text.last() == '\n' {
        closed_char_lines(text.drop_last()).push(open_char_line(text.drop_last()))
    } else {
        closed_char_lines(text.drop_last())
    }
}

/// The lines of `text`, without their line ends.
pub open spec fn char_lines(text: Seq<char>) -> Seq<Seq<char>> {
    if open_char_line(text).len() > 0 {
        closed_char_lines(text).push(open_char_line(text))
    } else {
        closed_char_lines(text)
    }
}

/// The key of the pad with the number `i`.
pub open spec fn dpad_numbered(i: int) -> Dpad {
    if i == 0 {
        Dpad::Up
    } else if i == 1 {
        Dpad::Down
    } else if i == 2 {
        Dpad::Left
    } else if i == 3 {
        Dpad::Right
    } else {
        Dpad::A
    }
}

/// The key of the keypad with the number `i`.
pub open spec fn keypad_numbered(i: int) -> Keypad {
    if i == 0 {
        Keypad::K0
    } else if i == 1 {
        Keypad::K1
    } else if i == 2 {
        Keypad::K2
    } else if i == 3 {
        Keypad::K3
    } else if i == 4 {
        Keypad::K4
    } else if i == 5 {
        Keypad::K5
    } else if i == 6 {
        Keypad::K6
    } else if i == 7 {
        Keypad::K7
    } else if i == 8 {
        Keypad::K8
    } else if i == 9 {
        Keypad::K9
    } else {
        Keypad::A
    }
}

/// The number of a state: the states are numbered by the number of keys
/// typed, then by where the fingers point. The three fingers point in
/// 5 x 5 x 11 = 275 ways.
pub open spec fn state_number(s: StateView) -> int {
    ((s.keys.len() * 5 + s.outer.ordinal()) * 5 + s.inner.ordinal()) * 11 + s.keypad.ordinal()
}

/// The state with the number `id`, among the states that have typed a start
/// of `code`.
pub open spec fn numbered(id: int, code: Seq<char>) -> StateView {
    StateView {
        keys: code.take(id / 275),
        outer: dpad_numbered((id / 55) % 5),
        inner: dpad_numbered((id / 11) % 5),
        keypad: keypad_numbered(id % 11),
    }
}

/// The numbers of the states of `pairs`.
pub open spec fn numbers_of(pairs: Seq<(Dpad, StateView)>) -> Seq<usize> {
    Seq::new(pairs.len(), |i: int| state_number(pairs[i].1) as usize)
}

/// The graph of the states that have typed a start of `code`: an edge for
/// each press that leads from one to another.
pub open spec fn state_graph(code: Seq<char>) -> Seq<Seq<usize>> {
    Seq::new(
        (code.len() + 1) * 275,
        |id: int| numbers_of(spec_successors(numbered(id, code), code, 5)),
    )
}

/// The marks of the states that have typed all of `code`.
pub open spec fn done_marks(code: Seq<char>) -> Seq<bool> {
    Seq::new((code.len() + 1) * 275, |id: int| id / 275 == code.len())
}

/// The successors of a state have typed a start of the code.
pub proof fn lemma_successors(s: StateView, code: Seq<char>, k: int)
    requires
        0 <= k <= 5,
    ensures
        spec_successors(s, code, k).len() <= k,
        forall|i: int|
            0 <= i < spec_successors(s, code, k).len() ==> is_start_of(
                (#[trigger] spec_successors(s, code, k)[i]).1.keys,
                code,
            ),
    decreases k,
{
    if k > 0 {
        lemma_successors(s, code, k - 1);
    }
}

/// A state that has typed a start of the code has a number in the graph,
/// and is the state with that number.
pub proof fn lemma_state_number(s: StateView, code: Seq<char>)
    requires
        is_start_of(s.keys, code),
    ensures
        0 <= state_number(s) < (code.len() + 1) * 275,
        numbered(state_number(s), code) == s,
{
    let id = state_number(s);
    let t = s.keys.len() as int;
    assert(id / 275 == t && (id / 55) % 5 == s.outer.ordinal() && (id / 11) % 5
        == s.inner.ordinal() && id % 11 == s.keypad.ordinal()) by {
        let o = s.outer.ordinal();
        let i = s.inner.ordinal();
        let k = s.keypad.ordinal();
        assert(id == 275 * t + 55 * o + 11 * i + k);
        assert(0 <= 55 * o + 11 * i + k < 275);
    }
    assert(code.take(t) =~= s.keys);
    assert(numbered(id, code) =~= s);
    assert((t + 1) * 275 <= (code.len() + 1) * 275);
}

/// The number of `state`.
pub fn encode(state: &State) -> (id: usize)
    requires
        (state.keys_pressed@.len() + 1) * 275 <= usize::MAX,
    ensures
        id == state_number(state@),
{
    ((state.keys_pressed.len() * 5 + state.dpad_outer.index()) * 5 + state.dpad_inner.index()) * 11
        + state.keypad.index()
}

/// The state with the number `id`.
pub fn decode(id: usize, code: &[char]) -> (state: State)
    requires
        id < (code@.len() + 1) * 275,
    ensures
        state@ == numbered(id as int, code@),
        state_number(state@) == id,
        is_start_of(state@.keys, code@),
{
    let typed = id / 275;
    let mut keys: Vec<char> = Vec::with_capacity(typed);
    let mut i: usize = 0;
    while i < typed
        invariant
            typed <= code@.len(),
            i <= typed,
            keys@ == code@.take(i as int),
        decreases typed - i,
    {
        keys.push(code[i]);
        proof {
            assert(keys@ =~= code@.take(i + 1));
        }
        i += 1;
    }
    let state = State {
        keys_pressed: keys,
        dpad_outer: Dpad::from_index((id / 55) % 5),
        dpad_inner: Dpad::from_index((id / 11) % 5),
        keypad: Keypad::from_index(id % 11),
    };
    proof {
        assert(state@ =~= numbered(id as int, code@));
    }
    state
}

/// Lists the presses that lead from each state to another.
pub fn make_graph(code: &[char]) -> (graph: Vec<Vec<usize>>)
    requires
        (code@.len() + 1) * 275 <= usize::MAX,
    ensures
        links(graph@) == state_graph(code@),
        is_graph(links(graph@)),
        graph@.len() == (code@.len() + 1) * 275,
{
    let n = (code.len() + 1) * 275;
    let mut graph: Vec<Vec<usize>> = Vec::with_capacity(n);
    let mut id: usize = 0;
    while id < n
        invariant
            n == (code@.len() + 1) * 275,
            n <= usize::MAX,
            id <= n,
            graph@.len() == id,
            forall|b: int| 0 <= b < id ==> (#[trigger] graph@[b])@ == state_graph(code@)[b],
            forall|b: int, i: int|
                0 <= b < id && 0 <= i < graph@[b]@.len() ==> (#[trigger] graph@[b]@[i]) < n,
        decreases n - id,
    {
        let state = decode(id, code);
        let next = state.successors(code);
        let ghost pairs = spec_successors(numbered(id as int, code@), code@, 5);
        let mut edges: Vec<usize> = Vec::with_capacity(next.len());
        let mut k: usize = 0;
        proof {
            lemma_successors(numbered(id as int, code@), code@, 5);
        }
        while k < next.len()
            invariant
                n == (code@.len() + 1) * 275,
                n <= usize::MAX,
                pair_views(next@) == pairs,
                forall|i: int| 0 <= i < pairs.len() ==> is_start_of((#[trigger] pairs[i]).1.keys, code@),
                k <= next@.len(),
                edges@ == numbers_of(pairs).take(k as int),
                forall|i: int| 0 <= i < edges@.len() ==> (#[trigger] edges@[i]) < n,
            decreases next@.len() - k,
        {
            proof {
                assert(pair_views(next@)[k as int] == (next@[k as int].0, next@[k as int].1@));
                assert(is_start_of(pairs[k as int].1.keys, code@));
                lemma_state_number(next@[k as int].1@, code@);
                assert((next@[k as int].1@.keys.len() + 1) * 275 <= n);
            }
            edges.push(encode(&next[k].1));
            proof {
                assert(edges@ =~= numbers_of(pairs).take(k + 1));
            }
            k += 1;
        }
        proof {
            assert(pair_views(next@).len() == next@.len());
            assert(numbers_of(pairs).take(pairs.len() as int) == numbers_of(pairs));
        }
        let ghost had = graph@;
        graph.push(edges);
        proof {
            assert forall|b: int| 0 <= b < id + 1 implies (#[trigger] graph@[b])@ == state_graph(
                code@,
            )[b] by {
                if b < id {
                    assert(graph@[b] == had[b]);
                }
            }
            assert forall|b: int, i: int|
                0 <= b < id + 1 && 0 <= i < graph@[b]@.len() implies (#[trigger] graph@[b]@[i])
                < n by {
                if b < id {
                    assert(graph@[b] == had[b]);
                }
            }
        }
        id += 1;
    }
    proof {
        assert(links(graph@) =~= state_graph(code@));
    }
    graph
}

/// Finds the fewest presses of the human that make the robots type `code`,
/// starting from `start`, which has typed a start of `code`. The result is the
/// number of presses and the state they lead to, or `None` when no presses do.
pub fn bfs(start: State, code: &[char]) -> (found: Option<(usize, State)>)
    requires
        is_start_of(start@.keys, code@),
        (code@.len() + 1) * 275 <= usize::MAX,
    ensures
        match found {
            Some((presses, state)) => state@.keys == code@ && nearest(
                state_graph(code@),
                done_marks(code@),
                state_number(start@) as usize,
                state_number(state@) as usize,
                presses as nat,
            ),
            None => none_in_reach(
                state_graph(code@),
                done_marks(code@),
                state_number(start@) as usize,
            ),
        },
{
    let n = (code.len() + 1) * 275;
    let graph = make_graph(code);
    let mut goal: Vec<bool> = Vec::with_capacity(n);
    let mut id: usize = 0;
    while id < n
        invariant
            n == (code@.len() + 1) * 275,
            id <= n,
            goal@.len() == id,
            forall|j: int| 0 <= j < id ==> #[trigger] goal@[j] == (j / 275 == code@.len()),
        decreases n - id,
    {
        goal.push(id / 275 == code.len());
        id += 1;
    }
    proof {
        assert(goal@ =~= done_marks(code@));
        lemma_state_number(start@, code@);
        assert((start@.keys.len() + 1) * 275 <= n);
    }
    let from = encode(&start);
    match search(&graph, &goal, from) {
        Some((to, presses)) => {
            let state = decode(to, code);
            proof {
                assert(code@.take(code@.len() as int) == code@);
                assert(state@.keys =~= code@);
            }
            Some((presses, state))
        },
        None => None,
    }
}

/// The fewest presses that type `code` from `start` are `presses` many and
/// can end in `end`.
pub open spec fn types(code: Seq<char>, start: StateView, end: StateView, presses: nat) -> bool {
    &&& end.keys == code
    &&& nearest(
        state_graph(code),
        done_marks(code),
        state_number(start) as usize,
        state_number(end) as usize,
        presses,
    )
}

/// The state `s` with no keys typed.
pub open spec fn cleared(s: StateView) -> StateView {
    StateView { keys: Seq::empty(), ..s }
}

/// Whether the codes from the one with index `i` on can be typed one after
/// the other, each with the fewest presses from where the one before left the
/// fingers, so that the numbers in the codes times the presses add up to
/// `total`.
pub open spec fn typed_from(input: Seq<Vec<char>>, i: int, start: StateView, total: nat) -> bool
    decreases input.len() - i,
{
    if i >= input.len() {
        total == 0
    } else {
        exists|presses: nat, end: StateView| #[trigger]
            types(input[i]@, start, end, presses) && total >= numeric_value(input[i]@) * presses
                && typed_from(
                input,
                i + 1,
                cleared(end),
                (total - numeric_value(input[i]@) * presses) as nat,
            )
    }
}

/// Whether typing the codes from the one with index `i` on, each with the
/// fewest presses from where the one before left the fingers, can come to a
/// code that cannot be typed, or to a sum that does not fit, when the codes
/// before have added up to `sum`.
pub open spec fn fails_from(input: Seq<Vec<char>>, i: int, start: StateView, sum: nat) -> bool
    decreases input.len() - i,
{
    if i >= input.len() {
        false
    } else {
        ||| none_in_reach(
            state_graph(input[i]@),
            done_marks(input[i]@),
            state_number(start) as usize,
        )
        ||| exists|presses: nat, end: StateView| #[trigger]
            types(input[i]@, start, end, presses) && (sum + numeric_value(input[i]@) * presses
                > usize::MAX || fails_from(
                input,
                i + 1,
                cleared(end),
                sum + numeric_value(input[i]@) * presses,
            ))
    }
}

/// The sum over the codes of the number in the code times the fewest
/// presses that type it, each code typed from where the one before left the
/// fingers. The result is `None` when a code cannot be typed or the sum does
/// not fit.
pub fn q1(input: &Vec<Vec<char>>) -> (total: Option<usize>)
    requires
        forall|i: int|
            0 <= i < input@.len() ==> {
                &&& digit_chars((#[trigger] input@[i])@) <= 10
                &&& numeric_value(input@[i]@) <= u32::MAX
                &&& (input@[i]@.len() + 1) * 275 <= usize::MAX
            },
    ensures
        match total {
            Some(sum) => typed_from(
                input@,
                0,
                StateView { keys: Seq::empty(), outer: Dpad::A, inner: Dpad::A, keypad: Keypad::A },
                sum as nat,
            ),
            None => fails_from(
                input@,
                0,
                StateView { keys: Seq::empty(), outer: Dpad::A, inner: Dpad::A, keypad: Keypad::A },
                0,
            ),
        },
{
    let mut state = State::default();
    let ghost first = state@;
    let mut total_complexity: usize = 0;
    let mut i: usize = 0;
    while i < input.len()
        invariant
            i <= input@.len(),
            state@.keys.len() == 0,
            forall|i: int|
                0 <= i < input@.len() ==> {
                    &&& digit_chars((#[trigger] input@[i])@) <= 10
                    &&& numeric_value(input@[i]@) <= u32::MAX
                    &&& (input@[i]@.len() + 1) * 275 <= usize::MAX
                },
            forall|rest: nat| #[trigger]
                typed_from(input@, i as int, state@, rest) ==> typed_from(
                    input@,
                    0,
                    first,
                    (total_complexity + rest) as nat,
                ),
            first == (StateView {
                keys: Seq::empty(),
                outer: Dpad::A,
                inner: Dpad::A,
                keypad: Keypad::A,
            }),
            fails_from(input@, i as int, state@, total_complexity as nat) ==> fails_from(
                input@,
                0,
                first,
                0,
            ),
        decreases input@.len() - i,
    {
        let code = input[i].as_slice();
        let ghost before = state@;
        let ghost sum = total_complexity;
        let (path_len, new_state) = match bfs(state, code) {
            Some(found) => found,
            None => {
                return None;
            },
        };
        let ghost end = new_state@;
        state = new_state;
        state.keys_pressed = Vec::new();
        proof {
            assert(types(input@[i as int]@, before, end, path_len as nat));
        }
        let complexity = match numeric_part(code).checked_mul(path_len) {
            Some(product) => product,
            None => {
                proof {
                    assert(fails_from(input@, i as int, before, sum as nat));
                }
                return None;
            },
        };
        total_complexity = match total_complexity.checked_add(complexity) {
            Some(sum) => sum,
            None => {
                proof {
                    assert(fails_from(input@, i as int, before, sum as nat));
                }
                return None;
            },
        };
        let ghost next = i as int + 1;
        proof {
            assert(state@ =~= cleared(end));
            assert(types(input@[i as int]@, before, end, path_len as nat));
            assert forall|rest: nat| #[trigger]
                typed_from(input@, next, state@, rest) implies typed_from(
                input@,
                0,
                first,
                (total_complexity + rest) as nat,
            ) by {
                let whole = (complexity + rest) as nat;
                assert((whole - numeric_value(input@[i as int]@) * path_len) as nat == rest);
                assert(typed_from(input@, i as int, before, whole));
                assert(sum + whole == total_complexity + rest);
            }
            if fails_from(input@, next, state@, total_complexity as nat) {
                assert(fails_from(input@, i as int, before, sum as nat));
            }
        }
        i += 1;
    }
    proof {
        assert(typed_from(input@, input@.len() as int, state@, 0));
    }
    Some(total_complexity)
}

} // verus!
