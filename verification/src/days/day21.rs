use crate::etc::count::sum;
use crate::etc::outside::{is_node, shortest_path, walk};
use crate::etc::solution::{Solution, SolutionPair};
use crate::etc::text::{chars, rows_view, split_words, words};
use vstd::prelude::*;

verus! {

#[derive(Clone, Copy, PartialEq, Eq, Structural, Default, Hash, Debug)]
pub enum DirectionalKey {
    Up,
    Down,
    Left,
    Right,
    #[default]
    Actionate,
}

#[derive(Clone, Copy, PartialEq, Eq, Structural, Default, Hash, Debug)]
pub enum NumericalKey {
    Digit(u8),
    #[default]
    Actionate,
}

#[derive(Clone, Copy, PartialEq, Eq, Structural, Default, Hash, Debug)]
pub struct State {
    pub directional_keypad1: DirectionalKey,
    pub directional_keypad2: DirectionalKey,
    pub numerical_keypad: NumericalKey,
}

pub type Code = [NumericalKey; 4];

/// Where a key of the directional keypad is: its line and its column.
///
/// ```text
///     +---+---+
///     | ^ | A |
/// +---+---+---+
/// | < | v | > |
/// +---+---+---+
/// ```
pub open spec fn directional_place(key: DirectionalKey) -> (int, int) {
    match key {
        DirectionalKey::Up => (0, 1),
        DirectionalKey::Actionate => (0, 2),
        DirectionalKey::Left => (1, 0),
        DirectionalKey::Down => (1, 1),
        DirectionalKey::Right => (1, 2),
    }
}

/// Where a key of the numerical keypad is, where the keypad has it.
///
/// ```text
/// +---+---+---+
/// | 7 | 8 | 9 |
/// +---+---+---+
/// | 4 | 5 | 6 |
/// +---+---+---+
/// | 1 | 2 | 3 |
/// +---+---+---+
///     | 0 | A |
///     +---+---+
/// ```
pub open spec fn numerical_place(key: NumericalKey) -> Option<(int, int)> {
    match key {
        NumericalKey::Actionate => Some((3, 2)),
        NumericalKey::Digit(d) => if d == 0 {
            Some((3, 1))
        } else if d <= 9 {
            Some((2 - (d - 1) / 3, (d - 1) % 3))
        } else {
            None
        },
    }
}

/// The way in which a key of the directional keypad moves an arm: by how many
/// lines and columns.
pub open spec fn direction(action: DirectionalKey) -> (int, int) {
    match action {
        DirectionalKey::Up => (-1, 0),
        DirectionalKey::Down => (1, 0),
        DirectionalKey::Left => (0, -1),
        DirectionalKey::Right => (0, 1),
        DirectionalKey::Actionate => (0, 0),
    }
}

/// What an action makes of an arm over the directional keypad: it presses the
/// key under the arm, or moves the arm to the key next to it in its direction,
/// where there is one.
pub open spec fn directional_move(position: DirectionalKey, action: DirectionalKey) -> Option<
    (DirectionalKey, Option<DirectionalKey>),
> {
    if action == DirectionalKey::Actionate {
        Some((position, Some(position)))
    } else {
        let there = (
            directional_place(position).0 + direction(action).0,
            directional_place(position).1 + direction(action).1,
        );
        if exists|key: DirectionalKey| directional_place(key) == there {
            Some((choose|key: DirectionalKey| directional_place(key) == there, None))
        } else {
            None
        }
    }
}

/// What an action makes of an arm over the numerical keypad.
pub open spec fn numerical_move(position: NumericalKey, action: DirectionalKey) -> Option<
    (NumericalKey, Option<NumericalKey>),
> {
    if action == DirectionalKey::Actionate {
        Some((position, Some(position)))
    } else {
        match numerical_place(position) {
            Some(place) => {
                let there = (place.0 + direction(action).0, place.1 + direction(action).1);
                if exists|key: NumericalKey| numerical_place(key) == Some(there) {
                    Some((choose|key: NumericalKey| numerical_place(key) == Some(there), None))
                } else {
                    None
                }
            },
            None => None,
        }
    }
}

/// If the action is possible from the given position, return the couple of the updated position
/// and optional performed action on the directional keypad.
pub fn directional_keypad_action(position: DirectionalKey, action: DirectionalKey) -> (r: Option<
    (DirectionalKey, Option<DirectionalKey>),
>)
    ensures
        r == directional_move(position, action),
{
    let res = match (position, action) {
        (_, DirectionalKey::Actionate) => Some((position, Some(position))),
        (DirectionalKey::Up, DirectionalKey::Right) => Some((DirectionalKey::Actionate, None)),
        (DirectionalKey::Up, DirectionalKey::Down) => Some((DirectionalKey::Down, None)),
        (DirectionalKey::Left, DirectionalKey::Right) => Some((DirectionalKey::Down, None)),
        (DirectionalKey::Down, DirectionalKey::Up) => Some((DirectionalKey::Up, None)),
        (DirectionalKey::Down, DirectionalKey::Left) => Some((DirectionalKey::Left, None)),
        (DirectionalKey::Down, DirectionalKey::Right) => Some((DirectionalKey::Right, None)),
        (DirectionalKey::Right, DirectionalKey::Up) => Some((DirectionalKey::Actionate, None)),
        (DirectionalKey::Right, DirectionalKey::Left) => Some((DirectionalKey::Down, None)),
        (DirectionalKey::Actionate, DirectionalKey::Left) => Some((DirectionalKey::Up, None)),
        (DirectionalKey::Actionate, DirectionalKey::Down) => Some((DirectionalKey::Right, None)),
        // action forbidden from current state
        _ => None,
    };
    proof {
        if action != DirectionalKey::Actionate {
            let there = (
                directional_place(position).0 + direction(action).0,
                directional_place(position).1 + direction(action).1,
            );
            match res {
                Some((key, _)) => {
                    assert(directional_place(key) == there);
                    lemma_directional_places(key, choose|key: DirectionalKey| directional_place(key) == there);
                },
                None => {
                    assert forall|key: DirectionalKey| directional_place(key) != there by {}
                },
            }
        }
    }
    res
}

/// No two keys of the directional keypad are on one place.
pub proof fn lemma_directional_places(a: DirectionalKey, b: DirectionalKey)
    requires
        directional_place(a) == directional_place(b),
    ensures
        a == b,
{
}

/// No two keys of the numerical keypad are on one place.
pub proof fn lemma_numerical_places(a: NumericalKey, b: NumericalKey)
    requires
        numerical_place(a) is Some,
        numerical_place(a) == numerical_place(b),
    ensures
        a == b,
{
}

/// If the action is possible from the given position, return the couple of the updated position
/// and optional performed action on the numerical keypad.
pub fn numerical_keypad_action(position: NumericalKey, action: DirectionalKey) -> (r: Option<
    (NumericalKey, Option<NumericalKey>),
>)
    ensures
        r == numerical_move(position, action),
{
    let res = match (position, action) {
        (_, DirectionalKey::Actionate) => Some((position, Some(position))),
        // 0
        (NumericalKey::Digit(0), DirectionalKey::Right) => Some((NumericalKey::Actionate, None)),
        (NumericalKey::Digit(0), DirectionalKey::Up) => Some((NumericalKey::Digit(2), None)),
        // 1
        (NumericalKey::Digit(1), DirectionalKey::Right) => Some((NumericalKey::Digit(2), None)),
        (NumericalKey::Digit(1), DirectionalKey::Up) => Some((NumericalKey::Digit(4), None)),
        // 2
        (NumericalKey::Digit(2), DirectionalKey::Right) => Some((NumericalKey::Digit(3), None)),
        (NumericalKey::Digit(2), DirectionalKey::Up) => Some((NumericalKey::Digit(5), None)),
        (NumericalKey::Digit(2), DirectionalKey::Down) => Some((NumericalKey::Digit(0), None)),
        (NumericalKey::Digit(2), DirectionalKey::Left) => Some((NumericalKey::Digit(1), None)),
        // 3
        (NumericalKey::Digit(3), DirectionalKey::Up) => Some((NumericalKey::Digit(6), None)),
        (NumericalKey::Digit(3), DirectionalKey::Down) => Some((NumericalKey::Actionate, None)),
        (NumericalKey::Digit(3), DirectionalKey::Left) => Some((NumericalKey::Digit(2), None)),
        // 4
        (NumericalKey::Digit(4), DirectionalKey::Right) => Some((NumericalKey::Digit(5), None)),
        (NumericalKey::Digit(4), DirectionalKey::Up) => Some((NumericalKey::Digit(7), None)),
        (NumericalKey::Digit(4), DirectionalKey::Down) => Some((NumericalKey::Digit(1), None)),
        // 5
        (NumericalKey::Digit(5), DirectionalKey::Right) => Some((NumericalKey::Digit(6), None)),
        (NumericalKey::Digit(5), DirectionalKey::Up) => Some((NumericalKey::Digit(8), None)),
        (NumericalKey::Digit(5), DirectionalKey::Down) => Some((NumericalKey::Digit(2), None)),
        (NumericalKey::Digit(5), DirectionalKey::Left) => Some((NumericalKey::Digit(4), None)),
        // 6
        (NumericalKey::Digit(6), DirectionalKey::Up) => Some((NumericalKey::Digit(9), None)),
        (NumericalKey::Digit(6), DirectionalKey::Down) => Some((NumericalKey::Digit(3), None)),
        (NumericalKey::Digit(6), DirectionalKey::Left) => Some((NumericalKey::Digit(5), None)),
        // 7
        (NumericalKey::Digit(7), DirectionalKey::Right) => Some((NumericalKey::Digit(8), None)),
        (NumericalKey::Digit(7), DirectionalKey::Down) => Some((NumericalKey::Digit(4), None)),
        // 8
        (NumericalKey::Digit(8), DirectionalKey::Down) => Some((NumericalKey::Digit(5), None)),
        (NumericalKey::Digit(8), DirectionalKey::Left) => Some((NumericalKey::Digit(7), None)),
        (NumericalKey::Digit(8), DirectionalKey::Right) => Some((NumericalKey::Digit(9), None)),
        // 9
        (NumericalKey::Digit(9), DirectionalKey::Left) => Some((NumericalKey::Digit(8), None)),
        (NumericalKey::Digit(9), DirectionalKey::Down) => Some((NumericalKey::Digit(6), None)),
        // A
        (NumericalKey::Actionate, DirectionalKey::Left) => Some((NumericalKey::Digit(0), None)),
        (NumericalKey::Actionate, DirectionalKey::Up) => Some((NumericalKey::Digit(3), None)),
        // action forbidden from current state
        _ => None,
    };
    proof {
        if action != DirectionalKey::Actionate {
            match numerical_place(position) {
                Some(place) => {
                    let there = (place.0 + direction(action).0, place.1 + direction(action).1);
                    match res {
                        Some((key, _)) => {
                            assert(numerical_place(key) == Some(there));
                            lemma_numerical_places(
                                key,
                                choose|key: NumericalKey| numerical_place(key) == Some(there),
                            );
                        },
                        None => {
                            assert forall|key: NumericalKey| numerical_place(key) != Some(there) by {
                                match key {
                                    NumericalKey::Digit(d) => {},
                                    NumericalKey::Actionate => {},
                                }
                            }
                        },
                    }
                },
                None => {},
            }
        }
    }
    res
}

/// What an action on the keypad that a person uses makes of the whole system:
/// the first arm presses its key, or moves; a pressed key is an action of the
/// second arm, in the same way; and so on to the numerical keypad, whose
/// pressed key is the output.
pub open spec fn moved(state: State, action: DirectionalKey) -> Option<(State, Option<NumericalKey>)> {
    match directional_move(state.directional_keypad1, action) {
        None => None,
        Some((directional_keypad1, None)) => Some(
            (
                State {
                    directional_keypad1,
                    directional_keypad2: state.directional_keypad2,
                    numerical_keypad: state.numerical_keypad,
                },
                None,
            ),
        ),
        Some((directional_keypad1, Some(action))) => match directional_move(
            state.directional_keypad2,
            action,
        ) {
            None => None,
            Some((directional_keypad2, None)) => Some(
                (
                    State {
                        directional_keypad1,
                        directional_keypad2,
                        numerical_keypad: state.numerical_keypad,
                    },
                    None,
                ),
            ),
            Some((directional_keypad2, Some(action))) => match numerical_move(
                state.numerical_keypad,
                action,
            ) {
                None => None,
                Some((numerical_keypad, action)) => Some(
                    (State { directional_keypad1, directional_keypad2, numerical_keypad }, action),
                ),
            },
        },
    }
}

/// Apply a transition the whole system state.
pub fn transition(state: &State, action: DirectionalKey) -> (r: Option<(State, Option<NumericalKey>)>)
    ensures
        r == moved(*state, action),
{
    // action on the top directional keypad translate
    match directional_keypad_action(state.directional_keypad1, action) {
        None => None,
        Some((directional_keypad1, None)) => Some(
            (
                State {
                    directional_keypad1,
                    directional_keypad2: state.directional_keypad2,
                    numerical_keypad: state.numerical_keypad,
                },
                None,
            ),
        ),
        Some((directional_keypad1, Some(action))) => {
            match directional_keypad_action(state.directional_keypad2, action) {
                None => None,
                Some((directional_keypad2, None)) => Some(
                    (
                        State {
                            directional_keypad1,
                            directional_keypad2,
                            numerical_keypad: state.numerical_keypad,
                        },
                        None,
                    ),
                ),
                Some((directional_keypad2, Some(action))) => {
                    match numerical_keypad_action(state.numerical_keypad, action) {
                        None => None,
                        Some((numerical_keypad, action)) => Some(
                            (
                                State { directional_keypad1, directional_keypad2, numerical_keypad },
                                action,
                            ),
                        ),
                    }
                },
            }
        },
    }
}


/// The number of a key of the directional keypad.
pub open spec fn directional_id(key: DirectionalKey) -> int {
    match key {
        DirectionalKey::Up => 0,
        DirectionalKey::Down => 1,
        DirectionalKey::Left => 2,
        DirectionalKey::Right => 3,
        DirectionalKey::Actionate => 4,
    }
}

/// The number of a key of the numerical keypad.
pub open spec fn numerical_id(key: NumericalKey) -> int {
    match key {
        NumericalKey::Digit(d) => d as int,
        NumericalKey::Actionate => 10,
    }
}

/// The state is one of the keypads: the digit is at most nine.
pub open spec fn on_keypads(state: State) -> bool {
    numerical_place(state.numerical_keypad) is Some
}

/// The number of a state.
pub open spec fn state_id(state: State) -> int {
    (directional_id(state.directional_keypad1) * 5 + directional_id(state.directional_keypad2))
        * 11 + numerical_id(state.numerical_keypad)
}

/// The number of states.
pub open spec fn states() -> int {
    275
}

fn directional_key(id: usize) -> (r: DirectionalKey)
    requires
        id < 5,
    ensures
        directional_id(r) == id,
{
    if id == 0 {
        DirectionalKey::Up
    } else if id == 1 {
        DirectionalKey::Down
    } else if id == 2 {
        DirectionalKey::Left
    } else if id == 3 {
        DirectionalKey::Right
    } else {
        DirectionalKey::Actionate
    }
}

fn directional_number(key: DirectionalKey) -> (r: usize)
    ensures
        r == directional_id(key),
        r < 5,
{
    match key {
        DirectionalKey::Up => 0,
        DirectionalKey::Down => 1,
        DirectionalKey::Left => 2,
        DirectionalKey::Right => 3,
        DirectionalKey::Actionate => 4,
    }
}

/// The state of a number.
pub fn state_of(id: usize) -> (r: State)
    requires
        id < states(),
    ensures
        on_keypads(r),
        state_id(r) == id,
{
    let n = id % 11;
    let rest = id / 11;
    State {
        directional_keypad1: directional_key(rest / 5),
        directional_keypad2: directional_key(rest % 5),
        numerical_keypad: if n == 10 {
            NumericalKey::Actionate
        } else {
            NumericalKey::Digit(n as u8)
        },
    }
}

/// The number of a state.
pub fn id_of(state: &State) -> (r: usize)
    requires
        on_keypads(*state),
    ensures
        r == state_id(*state),
        r < states(),
{
    let n: usize = match state.numerical_keypad {
        NumericalKey::Digit(d) => d as usize,
        NumericalKey::Actionate => 10,
    };
    (directional_number(state.directional_keypad1) * 5 + directional_number(
        state.directional_keypad2,
    )) * 11 + n
}

/// The state that an action leads to.
pub open spec fn next_state(state: State, action: DirectionalKey) -> State {
    (moved(state, action)->0).0
}

/// An action leads from the state of the number `from` to that of the number
/// `to`.
pub open spec fn leads(from: int, to: int) -> bool {
    exists|state: State, action: DirectionalKey|
        on_keypads(state) && state_id(state) == from && (#[trigger] moved(state, action)) is Some
            && state_id(next_state(state, action)) == to
}

/// The edges are the moves of the system: from the number of each state to the
/// number of each state that an action leads to.
pub open spec fn is_system(edges: Seq<(usize, usize)>) -> bool {
    &&& forall|e: int|
        0 <= e < edges.len() ==> (#[trigger] edges[e]).0 < states() && edges[e].1 < states() && leads(
            edges[e].0 as int,
            edges[e].1 as int,
        )
    &&& forall|state: State, action: DirectionalKey|
        on_keypads(state) && (#[trigger] moved(state, action)) is Some ==> exists|e: int|
            0 <= e < edges.len() && #[trigger] edges[e] == (
                state_id(state) as usize,
                state_id(next_state(state, action)) as usize,
            )
    &&& edges.len() <= 5 * states()
}

/// A move leads from a state of the keypads to a state of the keypads.
pub proof fn lemma_moved_on_keypads(state: State, action: DirectionalKey)
    requires
        on_keypads(state),
        moved(state, action) is Some,
    ensures
        on_keypads(next_state(state, action)),
{
    match directional_move(state.directional_keypad1, action) {
        Some((_, Some(second))) => {
            match directional_move(state.directional_keypad2, second) {
                Some((_, Some(third))) => {
                    if third != DirectionalKey::Actionate {
                        let place = numerical_place(state.numerical_keypad)->0;
                        let there = (place.0 + direction(third).0, place.1 + direction(third).1);
                        let key = choose|key: NumericalKey| numerical_place(key) == Some(there);
                    }
                },
                _ => {},
            }
        },
        _ => {},
    }
}

/// Two states of the keypads with one number are one state.
pub proof fn lemma_state_id(a: State, b: State)
    requires
        on_keypads(a),
        on_keypads(b),
        state_id(a) == state_id(b),
    ensures
        a == b,
{
}

/// Build whole system graph, each edge is a keystroke on the human-actionable directional
/// keypad.
pub fn build_system() -> (r: Vec<(usize, usize)>)
    ensures
        is_system(r@),
{
    let mut edges: Vec<(usize, usize)> = Vec::new();
    let mut from: usize = 0;
    while from < 275
        invariant
            from <= 275,
            edges@.len() <= 5 * from,
            forall|e: int|
                0 <= e < edges@.len() ==> (#[trigger] edges@[e]).0 < states() && edges@[e].1
                    < states() && leads(edges@[e].0 as int, edges@[e].1 as int),
            forall|state: State, action: DirectionalKey|
                on_keypads(state) && state_id(state) < from && (#[trigger] moved(state, action)) is Some
                    ==> exists|e: int|
                    0 <= e < edges@.len() && #[trigger] edges@[e] == (
                        state_id(state) as usize,
                        state_id(next_state(state, action)) as usize,
                    ),
        decreases 275 - from,
    {
        let state = state_of(from);
        let mut a: usize = 0;
        while a < 5
            invariant
                a <= 5,
                from < 275,
                on_keypads(state),
                state_id(state) == from,
                edges@.len() <= 5 * from + a,
                forall|e: int|
                    0 <= e < edges@.len() ==> (#[trigger] edges@[e]).0 < states() && edges@[e].1
                        < states() && leads(edges@[e].0 as int, edges@[e].1 as int),
                forall|other: State, action: DirectionalKey|
                    on_keypads(other) && (state_id(other) < from || other == state && directional_id(
                        action,
                    ) < a) && (#[trigger] moved(other, action)) is Some ==> exists|e: int|
                        0 <= e < edges@.len() && #[trigger] edges@[e] == (
                            state_id(other) as usize,
                            state_id(next_state(other, action)) as usize,
                        ),
            decreases 5 - a,
        {
            let action = directional_key(a);
            let ghost before = edges@;
            match transition(&state, action) {
                Some((next, _)) => {
                    proof {
                        lemma_moved_on_keypads(state, action);
                    }
                    let to = id_of(&next);
                    edges.push((from, to));
                    proof {
                        assert(leads(from as int, to as int));
                    }
                },
                None => {},
            }
            proof {
                assert forall|other: State, act: DirectionalKey|
                    on_keypads(other) && (state_id(other) < from || other == state && directional_id(
                        act,
                    ) < a + 1) && (#[trigger] moved(other, act)) is Some implies exists|e: int|
                    0 <= e < edges@.len() && #[trigger] edges@[e] == (
                        state_id(other) as usize,
                        state_id(next_state(other, act)) as usize,
                    ) by {
                    if other == state && directional_id(act) == a {
                        assert(act == action);
                        assert(edges@[edges@.len() - 1] == (
                            state_id(other) as usize,
                            state_id(next_state(other, act)) as usize,
                        ));
                    } else {
                        let e = choose|e: int|
                            0 <= e < before.len() && #[trigger] before[e] == (
                                state_id(other) as usize,
                                state_id(next_state(other, act)) as usize,
                            );
                        assert(edges@[e] == before[e]);
                    }
                }
                assert forall|e: int| 0 <= e < edges@.len() implies (#[trigger] edges@[e]).0 < states()
                    && edges@[e].1 < states() && leads(edges@[e].0 as int, edges@[e].1 as int) by {
                    if e < before.len() {
                        assert(edges@[e] == before[e]);
                    }
                }
            }
            a += 1;
        }
        proof {
            assert forall|other: State, action: DirectionalKey|
                on_keypads(other) && state_id(other) < from + 1 && (#[trigger] moved(other, action)) is Some implies exists|
                e: int,
            |
                0 <= e < edges@.len() && #[trigger] edges@[e] == (
                    state_id(other) as usize,
                    state_id(next_state(other, action)) as usize,
                ) by {
                if state_id(other) == from {
                    lemma_state_id(other, state);
                }
            }
        }
        from += 1;
    }
    edges
}


/// The key that a character stands for.
pub open spec fn key_of(c: char) -> Option<NumericalKey> {
    if '0' <= c <= '9' {
        Some(NumericalKey::Digit((c as int - '0' as int) as u8))
    } else if c == 'A' {
        Some(NumericalKey::Actionate)
    } else {
        None
    }
}

/// The key that a character stands for.
pub fn read_key(c: char) -> (r: Option<NumericalKey>)
    ensures
        r == key_of(c),
        r is Some ==> numerical_place(r->0) is Some,
{
    if crate::etc::number::is_digit_char(c) {
        Some(NumericalKey::Digit(crate::etc::number::digit_value(c)))
    } else if c == 'A' {
        Some(NumericalKey::Actionate)
    } else {
        None
    }
}

/// Every word starts with four characters that stand for keys.
pub open spec fn well_formed(input: Seq<char>) -> bool {
    forall|i: int|
        0 <= i < words(input).len() ==> (#[trigger] words(input)[i]).len() >= 4 && forall|k: int|
            0 <= k < 4 ==> key_of(#[trigger] words(input)[i][k]) is Some
}

/// The codes that the words write.
pub open spec fn codes_of(input: Seq<char>) -> Seq<Seq<NumericalKey>> {
    Seq::new(words(input).len(), |i: int| Seq::new(4, |k: int| key_of(words(input)[i][k])->0))
}

/// What some codes hold.
pub open spec fn codes_view(codes: Seq<Code>) -> Seq<Seq<NumericalKey>> {
    Seq::new(codes.len(), |i: int| codes[i]@)
}

/// The keys of the codes are keys of the keypad.
pub open spec fn valid_codes(codes: Seq<Code>) -> bool {
    forall|i: int, k: int|
        0 <= i < codes.len() && 0 <= k < 4 ==> numerical_place(#[trigger] codes[i]@[k]) is Some
}

/// Read the codes, or `None` where the text is not well formed.
pub fn parse(input: &str) -> (r: Option<Vec<Code>>)
    ensures
        match r {
            Some(codes) => well_formed(input@) && valid_codes(codes@) && codes_view(codes@)
                == codes_of(input@),
            None => !well_formed(input@),
        },
{
    let content = chars(input);
    let all = split_words(&content);
    let ghost texts = words(input@);
    let mut codes: Vec<Code> = Vec::new();
    let mut i: usize = 0;
    while i < all.len()
        invariant
            i <= all@.len(),
            texts == words(input@),
            texts == rows_view(all@),
            codes@.len() == i,
            forall|j: int|
                0 <= j < i ==> (#[trigger] texts[j]).len() >= 4 && forall|k: int|
                    0 <= k < 4 ==> key_of(#[trigger] texts[j][k]) is Some,
            forall|j: int, k: int|
                0 <= j < i && 0 <= k < 4 ==> #[trigger] codes@[j]@[k] == key_of(texts[j][k])->0
                    && numerical_place(codes@[j]@[k]) is Some,
        decreases all@.len() - i,
    {
        let word = &all[i];
        assert(texts[i as int] == word@);
        if word.len() < 4 {
            return None;
        }
        let code: Code = match (read_key(word[0]), read_key(word[1]), read_key(word[2]), read_key(
            word[3],
        )) {
            (Some(a), Some(b), Some(c), Some(d)) => [a, b, c, d],
            _ => {
                assert(exists|k: int| 0 <= k < 4 && key_of(#[trigger] texts[i as int][k]) is None);
                return None;
            },
        };
        let ghost before = codes@;
        codes.push(code);
        proof {
            assert forall|j: int, k: int| 0 <= j < i + 1 && 0 <= k < 4 implies #[trigger] codes@[j]@[k]
                == key_of(texts[j][k])->0 && numerical_place(codes@[j]@[k]) is Some by {
                if j < i {
                    assert(codes@[j] == before[j]);
                }
            }
            assert forall|k: int| 0 <= k < 4 implies key_of(#[trigger] texts[i as int][k]) is Some by {}
        }
        i += 1;
    }
    proof {
        assert forall|j: int| 0 <= j < codes@.len() implies #[trigger] codes_view(codes@)[j]
            == codes_of(input@)[j] by {
            assert(codes@[j]@ =~= Seq::new(4, |k: int| key_of(texts[j][k])->0)) by {
                assert forall|k: int| 0 <= k < 4 implies codes@[j]@[k] == key_of(texts[j][k])->0 by {}
            }
        }
        assert(codes_view(codes@) =~= codes_of(input@));
    }
    Some(codes)
}

/// Read the codes.
pub fn prepare(input: &str) -> (r: Vec<Code>)
    requires
        well_formed(input@),
    ensures
        valid_codes(r@),
        codes_view(r@) == codes_of(input@),
{
    match parse(input) {
        Some(codes) => codes,
        None => Vec::new(),
    }
}

/// The least number of edges from one node to another, or `None` where no
/// edges lead from one to the other.
pub open spec fn hops(edges: Seq<(usize, usize)>, from: int, to: int) -> Option<nat> {
    if exists|n: nat| walk(edges, from, to, n) {
        Some(
            choose|n: nat|
                walk(edges, from, to, n) && forall|m: nat| m < n ==> !walk(edges, from, to, m),
        )
    } else {
        None
    }
}

/// The state in which the last arm is over the key and the two others are over
/// the keys that press: the next press of the person presses the key.
pub open spec fn pressing(key: NumericalKey) -> State {
    State {
        directional_keypad1: DirectionalKey::Actionate,
        directional_keypad2: DirectionalKey::Actionate,
        numerical_keypad: key,
    }
}

/// Where the system is after the first `n` keys of the code were pressed, and
/// the number of presses of the person that it took at least; `None` where a key
/// cannot be reached, or the number does not fit 64 bits.
pub open spec fn typed(edges: Seq<(usize, usize)>, code: Seq<NumericalKey>, n: int) -> Option<
    (int, u64),
>
    decreases n,
{
    if n <= 0 {
        Some((state_id(pressing(NumericalKey::Actionate)), 0u64))
    } else {
        match typed(edges, code, n - 1) {
            Some((at, presses)) => match hops(edges, at, state_id(pressing(code[n - 1]))) {
                Some(more) => if presses + more + 1 <= u64::MAX {
                    Some((state_id(pressing(code[n - 1])), (presses + more + 1) as u64))
                } else {
                    None
                },
                None => None,
            },
            None => None,
        }
    }
}

/// The number that the digits among the first `n` keys of the code write.
pub open spec fn numeric_part(code: Seq<NumericalKey>, n: int) -> nat
    decreases n,
{
    if n <= 0 {
        0
    } else {
        match code[n - 1] {
            NumericalKey::Digit(d) => numeric_part(code, n - 1) * 10 + d as nat,
            NumericalKey::Actionate => numeric_part(code, n - 1),
        }
    }
}

/// The least number of edges between two states of the system.
fn distance(edges: &Vec<(usize, usize)>, from: usize, to: &State) -> (r: Option<u64>)
    requires
        is_system(edges@),
        from < states(),
        is_node(edges@, from as int),
        on_keypads(*to),
        to.directional_keypad1 == DirectionalKey::Actionate,
        to.directional_keypad2 == DirectionalKey::Actionate,
    ensures
        match r {
            Some(least) => hops(edges@, from as int, state_id(*to)) == Some(least as nat),
            None => hops(edges@, from as int, state_id(*to)) is None,
        },
        is_node(edges@, state_id(*to)),
{
    let goal = id_of(to);
    proof {
        assert(moved(*to, DirectionalKey::Actionate) is Some);
        assert(next_state(*to, DirectionalKey::Actionate) == *to);
        let e = choose|e: int|
            0 <= e < edges@.len() && #[trigger] edges@[e] == (
                state_id(*to) as usize,
                state_id(next_state(*to, DirectionalKey::Actionate)) as usize,
            );
        assert(goal <= edges@[e].0);
    }
    let r = shortest_path(edges, from, goal);
    proof {
        match r {
            Some(least) => {
                let other = hops(edges@, from as int, goal as int)->0;
                assert(walk(edges@, from as int, goal as int, least as nat));
                if other < least {
                    assert(!walk(edges@, from as int, goal as int, other));
                }
                if least < other {
                    assert(!walk(edges@, from as int, goal as int, least as nat));
                }
            },
            None => {},
        }
    }
    r
}

/// The least number of presses of the person that type the code, times the
/// number that the digits of the code write; `None` where a key cannot be
/// reached or a number does not fit 64 bits.
pub open spec fn complexity(edges: Seq<(usize, usize)>, code: Seq<NumericalKey>) -> Option<u64> {
    match typed(edges, code, 4) {
        Some((_, presses)) => if presses * numeric_part(code, 4) <= u64::MAX {
            Some((presses * numeric_part(code, 4)) as u64)
        } else {
            None
        },
        None => None,
    }
}

/// Press one more key: where the system is then, and the presses that it took.
fn press(edges: &Vec<(usize, usize)>, at: usize, presses: u64, key: NumericalKey) -> (r: Option<
    (usize, u64),
>)
    requires
        is_system(edges@),
        at < states(),
        is_node(edges@, at as int),
        numerical_place(key) is Some,
    ensures
        match r {
            Some((to, all)) => {
                &&& to == state_id(pressing(key))
                &&& to < states()
                &&& is_node(edges@, to as int)
                &&& hops(edges@, at as int, to as int) is Some
                &&& all == presses + hops(edges@, at as int, to as int)->0 + 1
            },
            None => hops(edges@, at as int, state_id(pressing(key))) is None || presses + hops(
                edges@,
                at as int,
                state_id(pressing(key)),
            )->0 + 1 > u64::MAX,
        },
{
    // find length of the shortest path from current state to state that will output the key
    let goal = State {
        directional_keypad1: DirectionalKey::Actionate,
        directional_keypad2: DirectionalKey::Actionate,
        numerical_keypad: key,
    };
    let len = match distance(edges, at, &goal) {
        Some(len) => len,
        None => {
            return None;
        },
    };
    let all = match presses.checked_add(len) {
        Some(sum) => match sum.checked_add(1) {
            Some(all) => all,
            None => {
                return None;
            },
        },
        None => {
            return None;
        },
    };
    Some((id_of(&goal), all))
}

/// The number that the digits of the code write.
pub fn numeric_value(code: &Code) -> (r: u64)
    requires
        forall|k: int| 0 <= k < 4 ==> numerical_place(#[trigger] code@[k]) is Some,
    ensures
        r == numeric_part(code@, 4),
        r < 10000,
{
    let mut numeric: u64 = 0;
    let mut i: usize = 0;
    while i < 4
        invariant
            i <= 4,
            forall|k: int| 0 <= k < 4 ==> numerical_place(#[trigger] code@[k]) is Some,
            numeric == numeric_part(code@, i as int),
            numeric < pow10(i as nat),
        decreases 4 - i,
    {
        proof {
            lemma_pow10(i as nat);
            assert(numerical_place(code@[i as int]) is Some);
        }
        match code[i] {
            NumericalKey::Digit(digit) => {
                numeric = numeric * 10 + (digit as u64);
            },
            _ => {},
        }
        i += 1;
    }
    proof {
        lemma_pow10(4);
    }
    numeric
}

/// The complexity of a code.
pub fn code_complexity(edges: &Vec<(usize, usize)>, code: &Code) -> (r: Option<u64>)
    requires
        is_system(edges@),
        forall|k: int| 0 <= k < 4 ==> numerical_place(#[trigger] code@[k]) is Some,
    ensures
        r == complexity(edges@, code@),
{
    let numeric = numeric_value(code);
    let mut presses: u64 = 0;
    let start_state = State {
        directional_keypad1: DirectionalKey::Actionate,
        directional_keypad2: DirectionalKey::Actionate,
        numerical_keypad: NumericalKey::Actionate,
    };
    let mut at = id_of(&start_state);
    proof {
        assert(moved(start_state, DirectionalKey::Actionate) is Some);
        assert(next_state(start_state, DirectionalKey::Actionate) == start_state);
        let e = choose|e: int|
            0 <= e < edges@.len() && #[trigger] edges@[e] == (
                state_id(start_state) as usize,
                state_id(next_state(start_state, DirectionalKey::Actionate)) as usize,
            );
        assert(at <= edges@[e].0);
    }
    let mut i: usize = 0;
    while i < 4
        invariant
            i <= 4,
            is_system(edges@),
            forall|k: int| 0 <= k < 4 ==> numerical_place(#[trigger] code@[k]) is Some,
            at < states(),
            is_node(edges@, at as int),
            typed(edges@, code@, i as int) == Some((at as int, presses)),
        decreases 4 - i,
    {
        assert(numerical_place(code@[i as int]) is Some);
        match press(edges, at, presses, code[i]) {
            Some((to, all)) => {
                at = to;
                presses = all;
            },
            None => {
                proof {
                    assert(typed(edges@, code@, i + 1) is None);
                    lemma_typed_stays_none(edges@, code@, i + 1, 4);
                }
                return None;
            },
        }
        i += 1;
    }
    presses.checked_mul(numeric)
}

/// Ten to the power of `n`.
pub open spec fn pow10(n: nat) -> nat
    decreases n,
{
    if n == 0 {
        1
    } else {
        10 * pow10((n - 1) as nat)
    }
}

/// The powers of ten up to the fourth.
proof fn lemma_pow10(n: nat)
    requires
        n <= 4,
    ensures
        pow10(n) <= 10000,
        n < 4 ==> pow10(n) <= 1000,
        pow10(n + 1) == 10 * pow10(n),
        pow10(4) == 10000,
{
    reveal_with_fuel(pow10, 6);
}

/// A code that cannot be typed stays so.
pub proof fn lemma_typed_stays_none(edges: Seq<(usize, usize)>, code: Seq<NumericalKey>, n: int, m: int)
    requires
        typed(edges, code, n) is None,
        n <= m,
    ensures
        typed(edges, code, m) is None,
    decreases m - n,
{
    if n < m {
        lemma_typed_stays_none(edges, code, n, m - 1);
    }
}

/// The sum of the complexities of the first `n` codes, or `None` where a code
/// has none or the sum does not fit 64 bits.
pub open spec fn total(edges: Seq<(usize, usize)>, codes: Seq<Seq<NumericalKey>>, n: int) -> Option<u64>
    decreases n,
{
    if n <= 0 {
        Some(0)
    } else {
        match (total(edges, codes, n - 1), complexity(edges, codes[n - 1])) {
            (Some(sum), Some(more)) => if sum + more <= u64::MAX {
                Some((sum + more) as u64)
            } else {
                None
            },
            _ => None,
        }
    }
}

/// A sum that is missing stays so.
pub proof fn lemma_total_stays_none(edges: Seq<(usize, usize)>, codes: Seq<Seq<NumericalKey>>, n: int, m: int)
    requires
        total(edges, codes, n) is None,
        n <= m,
    ensures
        total(edges, codes, m) is None,
    decreases m - n,
{
    if n < m {
        lemma_total_stays_none(edges, codes, n, m - 1);
    }
}

/// Build the graph of the whole system state (`11*5*5` different configurations), with each edge
/// being an action on the human-facing directional keypad and optionally an output of the
/// numerical keypad.
///
/// Then accumulate the shortest path length from start configuration to first digit configuration
/// and so on up to the activate key.
///
pub fn solve_part1(input: &str) -> (r: Option<u64>)
    requires
        well_formed(input@),
    ensures
        exists|edges: Seq<(usize, usize)>|
            #[trigger] is_system(edges) && r == total(edges, codes_of(input@), codes_of(input@).len() as int),
{
    let codes = prepare(input);
    let edges = build_system();
    let ghost all = codes_view(codes@);
    let mut sum_of_complexities: u64 = 0;
    let mut i: usize = 0;
    while i < codes.len()
        invariant
            i <= codes@.len(),
            is_system(edges@),
            valid_codes(codes@),
            all == codes_view(codes@),
            all == codes_of(input@),
            total(edges@, all, i as int) == Some(sum_of_complexities),
        decreases codes@.len() - i,
    {
        assert(all[i as int] == codes@[i as int]@);
        let more = match code_complexity(&edges, &codes[i]) {
            Some(value) => sum_of_complexities.checked_add(value),
            None => None,
        };
        sum_of_complexities = match more {
            Some(sum) => sum,
            None => {
                proof {
                    assert(total(edges@, all, i + 1) is None);
                    lemma_total_stays_none(edges@, all, i + 1, codes@.len() as int);
                }
                return None;
            },
        };
        i += 1;
    }
    Some(sum_of_complexities)
}

pub fn solve_part2(input: &str) -> (r: u64)
    ensures
        r == 1,
{
    1
}

/// Both answers, or `None` where the first is missing.
pub fn solve(input: String) -> (r: Option<SolutionPair>)
    requires
        well_formed(input@),
    ensures
        exists|edges: Seq<(usize, usize)>|
            #[trigger] is_system(edges) && match total(
                edges,
                codes_of(input@),
                codes_of(input@).len() as int,
            ) {
                Some(sum) => r == Some((Solution::U64(sum), Solution::U64(1))),
                None => r is None,
            },
{
    let sol1 = match solve_part1(input.as_str()) {
        Some(sum) => sum,
        None => {
            return None;
        },
    };
    let sol2 = solve_part2(input.as_str());
    Some((Solution::U64(sol1), Solution::U64(sol2)))
}

} // verus!
