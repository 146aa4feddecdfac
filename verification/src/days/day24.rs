use crate::days::day23::{
    join, joined, lemma_name_le_total, lemma_name_le_transitive, name_before, name_le,
};
use crate::etc::number::{decimal, digit, digit_value, digits, is_digit, is_digit_char};
use crate::etc::solution::{Solution, SolutionPair};
use crate::etc::text::{chars, lines, pieces, rows_view, slice, split_lines, split_on, text};
use std::collections::VecDeque;
use vstd::prelude::*;

verus! {

#[derive(Eq, PartialEq, Debug)]
pub enum Wire {
    Other(String),
    X(u64),
    Y(u64),
    Z(u64),
}

/// What a wire is named.
pub enum Name {
    Other(Seq<char>),
    X(u64),
    Y(u64),
    Z(u64),
}

impl View for Wire {
    type V = Name;

    open spec fn view(&self) -> Name {
        match *self {
            Wire::Other(name) => Name::Other(name@),
            Wire::X(i) => Name::X(i),
            Wire::Y(i) => Name::Y(i),
            Wire::Z(i) => Name::Z(i),
        }
    }
}

#[derive(Eq, PartialEq, Debug, Clone, Copy)]
pub enum Op {
    And,
    Or,
    Xor,
}

#[derive(Eq, PartialEq, Debug)]
pub struct Gate {
    pub op: Op,
    pub lhs: Wire,
    pub rhs: Wire,
    pub out: Wire,
}

/// What a gate joins.
pub struct Link {
    pub op: Op,
    pub lhs: Name,
    pub rhs: Name,
    pub out: Name,
}

impl View for Gate {
    type V = Link;

    open spec fn view(&self) -> Link {
        Link { op: self.op, lhs: self.lhs@, rhs: self.rhs@, out: self.out@ }
    }
}

pub type GateVec = VecDeque<Gate>;

/// The place of a kind of wire among the kinds.
pub open spec fn rank(w: Name) -> int {
    match w {
        Name::Other(_) => 0,
        Name::X(_) => 1,
        Name::Y(_) => 2,
        Name::Z(_) => 3,
    }
}

/// The number of a numbered wire.
pub open spec fn index(w: Name) -> int {
    match w {
        Name::Other(_) => 0,
        Name::X(i) => i as int,
        Name::Y(i) => i as int,
        Name::Z(i) => i as int,
    }
}

/// The text of a wire that has no number.
pub open spec fn label(w: Name) -> Seq<char> {
    match w {
        Name::Other(name) => name,
        _ => Seq::empty(),
    }
}

/// The order of the wires: those without a number first, by their text, then
/// the wires of each kind by their number.
pub open spec fn wire_le(a: Name, b: Name) -> bool {
    if rank(a) != rank(b) {
        rank(a) < rank(b)
    } else if rank(a) == 0 {
        name_le(label(a), label(b))
    } else {
        index(a) <= index(b)
    }
}

/// Of two wires, one stands before the other.
pub proof fn lemma_wire_le_total(a: Name, b: Name)
    ensures
        wire_le(a, b) || wire_le(b, a),
{
    lemma_name_le_total(label(a), label(b));
}

/// The order of the wires is transitive.
pub proof fn lemma_wire_le_transitive(a: Name, b: Name, c: Name)
    requires
        wire_le(a, b),
        wire_le(b, c),
    ensures
        wire_le(a, c),
{
    if rank(a) == 0 && rank(b) == 0 && rank(c) == 0 {
        lemma_name_le_transitive(label(a), label(b), label(c));
    }
}

/// A copy of the wire.
pub fn copy_wire(w: &Wire) -> (r: Wire)
    ensures
        r@ == w@,
{
    match w {
        Wire::Other(name) => Wire::Other(name.clone()),
        Wire::X(i) => Wire::X(*i),
        Wire::Y(i) => Wire::Y(*i),
        Wire::Z(i) => Wire::Z(*i),
    }
}

/// Whether the two are the same wire.
pub fn same_wire(a: &Wire, b: &Wire) -> (r: bool)
    ensures
        r == (a@ == b@),
{
    match (a, b) {
        (Wire::Other(x), Wire::Other(y)) => {
            let r = *x == *y;
            r
        },
        (Wire::X(i), Wire::X(k)) => *i == *k,
        (Wire::Y(i), Wire::Y(k)) => *i == *k,
        (Wire::Z(i), Wire::Z(k)) => *i == *k,
        _ => false,
    }
}

/// Whether the first wire stands before the second, or is the same.
pub fn wire_before(a: &Wire, b: &Wire) -> (r: bool)
    ensures
        r == wire_le(a@, b@),
{
    match (a, b) {
        (Wire::Other(x), Wire::Other(y)) => name_before(&chars(x.as_str()), &chars(y.as_str())),
        (Wire::Other(_), _) => true,
        (Wire::X(i), Wire::X(k)) => *i <= *k,
        (Wire::X(_), Wire::Other(_)) => false,
        (Wire::X(_), _) => true,
        (Wire::Y(i), Wire::Y(k)) => *i <= *k,
        (Wire::Y(_), Wire::Z(_)) => true,
        (Wire::Y(_), _) => false,
        (Wire::Z(i), Wire::Z(k)) => *i <= *k,
        (Wire::Z(_), _) => false,
    }
}

/// The number that the second and third characters of a name write: two
/// digits, or a plus sign and a digit.
pub open spec fn number_in(name: Seq<char>) -> Option<u64> {
    if name.len() >= 3 && is_digit(name[2]) {
        if is_digit(name[1]) {
            Some((10 * digit(name[1]) + digit(name[2])) as u64)
        } else if name[1] == '+' {
            Some(digit(name[2]) as u64)
        } else {
            None
        }
    } else {
        None
    }
}

/// The wire that a name stands for: a name that starts with `x`, `y` or `z`
/// is a numbered wire, and is no wire where no number follows.
pub open spec fn wire_of(name: Seq<char>) -> Option<Name> {
    if name.len() > 0 && name[0] == 'z' {
        match number_in(name) {
            Some(i) => Some(Name::Z(i)),
            None => None,
        }
    } else if name.len() > 0 && name[0] == 'x' {
        match number_in(name) {
            Some(i) => Some(Name::X(i)),
            None => None,
        }
    } else if name.len() > 0 && name[0] == 'y' {
        match number_in(name) {
            Some(i) => Some(Name::Y(i)),
            None => None,
        }
    } else {
        Some(Name::Other(name))
    }
}

/// The number that the second and third characters of a name write.
fn read_number(name: &Vec<char>) -> (r: Option<u64>)
    ensures
        r == number_in(name@),
{
    if name.len() < 3 || !is_digit_char(name[2]) {
        return None;
    }
    let low = digit_value(name[2]) as u64;
    if is_digit_char(name[1]) {
        Some(10 * (digit_value(name[1]) as u64) + low)
    } else if name[1] == '+' {
        Some(low)
    } else {
        None
    }
}

/// The wire that the characters name.
pub fn wire(name: &Vec<char>) -> (r: Option<Wire>)
    ensures
        match r {
            Some(w) => wire_of(name@) == Some(w@),
            None => wire_of(name@) is None,
        },
{
    if name.len() > 0 && name[0] == 'z' {
        match read_number(name) {
            Some(i) => Some(Wire::Z(i)),
            None => None,
        }
    } else if name.len() > 0 && name[0] == 'x' {
        match read_number(name) {
            Some(i) => Some(Wire::X(i)),
            None => None,
        }
    } else if name.len() > 0 && name[0] == 'y' {
        match read_number(name) {
            Some(i) => Some(Wire::Y(i)),
            None => None,
        }
    } else {
        Some(Wire::Other(text(name)))
    }
}

/// The wire that the text names.
pub fn make_wire(name: &str) -> (r: Option<Wire>)
    ensures
        match r {
            Some(w) => wire_of(name@) == Some(w@),
            None => wire_of(name@) is None,
        },
{
    wire(&chars(name))
}

/// The signals that the first `n` wires of a list have: a later value of a
/// wire stands for an earlier one.
pub open spec fn chart(wires: Seq<Wire>, values: Seq<bool>, n: int) -> Map<Name, bool>
    decreases n,
{
    if n <= 0 {
        Map::empty()
    } else {
        chart(wires, values, n - 1).insert(wires[n - 1]@, values[n - 1])
    }
}

/// The wires of the chart are those of the list, and where no wire stands
/// twice in the list each has the value that stands with it.
pub proof fn lemma_chart(wires: Seq<Wire>, values: Seq<bool>, n: int)
    requires
        0 <= n <= wires.len(),
        n <= values.len(),
    ensures
        forall|w: Name|
            chart(wires, values, n).dom().contains(w) <==> exists|k: int|
                0 <= k < n && (#[trigger] wires[k])@ == w,
        forall|k: int|
            0 <= k < n && (forall|j: int| k < j < n ==> (#[trigger] wires[j])@ != wires[k]@) ==> chart(
                wires,
                values,
                n,
            )[(#[trigger] wires[k])@] == values[k],
    decreases n,
{
    if n > 0 {
        lemma_chart(wires, values, n - 1);
        let before = chart(wires, values, n - 1);
        assert forall|w: Name| chart(wires, values, n).dom().contains(w) implies exists|k: int|
            0 <= k < n && (#[trigger] wires[k])@ == w by {
            if w == wires[n - 1]@ {
            } else {
                assert(before.dom().contains(w));
                let k = choose|k: int| 0 <= k < n - 1 && (#[trigger] wires[k])@ == w;
                assert(0 <= k < n && wires[k]@ == w);
            }
        }
        assert forall|k: int|
            0 <= k < n && (forall|j: int|
                k < j < n ==> (#[trigger] wires[j])@ != wires[k]@) implies chart(wires, values, n)[(
            #[trigger] wires[k])@] == values[k] by {
            if k < n - 1 {
                assert(wires[n - 1]@ != wires[k]@);
            }
        }
    }
}

/// The signals of wires.
#[derive(Debug, PartialEq, Eq)]
pub struct WireValueMap {
    wires: Vec<Wire>,
    values: Vec<bool>,
}

impl View for WireValueMap {
    type V = Map<Name, bool>;

    closed spec fn view(&self) -> Map<Name, bool> {
        chart(self.wires@, self.values@, self.wires@.len() as int)
    }
}

impl WireValueMap {
    /// Each wire stands once, with its value.
    pub closed spec fn wf(&self) -> bool {
        &&& self.wires@.len() == self.values@.len()
        &&& forall|i: int, k: int|
            0 <= i < k < self.wires@.len() ==> (#[trigger] self.wires@[i])@ != (
            #[trigger] self.wires@[k])@
    }

    /// No signal.
    pub fn new() -> (r: Self)
        ensures
            r.wf(),
            r@ == Map::<Name, bool>::empty(),
    {
        WireValueMap { wires: Vec::new(), values: Vec::new() }
    }

    /// The place of the wire in the list, if it has one.
    fn place(&self, w: &Wire) -> (r: Option<usize>)
        requires
            self.wf(),
        ensures
            match r {
                Some(k) => k < self.wires@.len() && self.wires@[k as int]@ == w@,
                None => forall|k: int| 0 <= k < self.wires@.len() ==> (#[trigger] self.wires@[k])@ != w@,
            },
    {
        let mut k: usize = 0;
        while k < self.wires.len()
            invariant
                k <= self.wires@.len(),
                forall|j: int| 0 <= j < k ==> (#[trigger] self.wires@[j])@ != w@,
            decreases self.wires@.len() - k,
        {
            if same_wire(&self.wires[k], w) {
                return Some(k);
            }
            k += 1;
        }
        None
    }

    /// The signal of the wire, if it has one.
    pub fn get(&self, w: &Wire) -> (r: Option<bool>)
        requires
            self.wf(),
        ensures
            r == if self@.dom().contains(w@) {
                Some(self@[w@])
            } else {
                None
            },
    {
        proof {
            lemma_chart(self.wires@, self.values@, self.wires@.len() as int);
        }
        match self.place(w) {
            Some(k) => Some(self.values[k]),
            None => None,
        }
    }

    /// Give the wire a signal, in place of the one that it had, if any.
    pub fn insert(&mut self, w: Wire, value: bool)
        requires
            old(self).wf(),
        ensures
            final(self).wf(),
            final(self)@ == old(self)@.insert(w@, value),
    {
        let ghost n = self.wires@.len() as int;
        proof {
            lemma_chart(self.wires@, self.values@, n);
        }
        match self.place(&w) {
            Some(k) => {
                self.values.set(k, value);
                proof {
                    lemma_chart(self.wires@, self.values@, n);
                    assert(self@ =~= old(self)@.insert(w@, value)) by {
                        assert forall|v: Name| self@.dom().contains(v) implies #[trigger] self@[v]
                            == old(self)@.insert(w@, value)[v] by {
                            let j = choose|j: int| 0 <= j < n && (#[trigger] self.wires@[j])@ == v;
                            assert(self@[self.wires@[j]@] == self.values@[j]);
                            assert(old(self)@[old(self).wires@[j]@] == old(self).values@[j]);
                        }
                    }
                }
            },
            None => {
                self.wires.push(w);
                self.values.push(value);
                proof {
                    lemma_chart(self.wires@, self.values@, n + 1);
                    assert(self@ =~= old(self)@.insert(w@, value)) by {
                        assert forall|v: Name| self@.dom().contains(v) implies #[trigger] self@[v]
                            == old(self)@.insert(w@, value)[v] by {
                            let j = choose|j: int| 0 <= j < n + 1 && (#[trigger] self.wires@[j])@ == v;
                            assert(self@[self.wires@[j]@] == self.values@[j]);
                            if j < n {
                                assert(old(self).wires@[j] == self.wires@[j]);
                                assert(old(self)@[old(self).wires@[j]@] == old(self).values@[j]);
                            }
                        }
                        assert forall|v: Name| old(self)@.insert(w@, value).dom().contains(
                            v,
                        ) implies self@.dom().contains(v) by {
                            if v != w@ {
                                let j = choose|j: int| 0 <= j < n && (#[trigger] old(self).wires@[j])@ == v;
                                assert(self.wires@[j]@ == v);
                            } else {
                                assert(self.wires@[n]@ == v);
                            }
                        }
                    }
                }
            },
        }
    }

    /// Whether a wire `z` with a number of 64 or more has the signal one.
    pub fn any_high(&self) -> (r: bool)
        requires
            self.wf(),
        ensures
            r == too_high(self@),
    {
        proof {
            lemma_chart(self.wires@, self.values@, self.wires@.len() as int);
        }
        let mut k: usize = 0;
        while k < self.wires.len()
            invariant
                k <= self.wires@.len(),
                self.wf(),
                forall|j: int|
                    0 <= j < k ==> !(high((#[trigger] self.wires@[j])@) && self.values@[j]),
            decreases self.wires@.len() - k,
        {
            let found = match &self.wires[k] {
                Wire::Z(bit) => *bit >= 64 && self.values[k],
                _ => false,
            };
            if found {
                proof {
                    lemma_chart(self.wires@, self.values@, self.wires@.len() as int);
                    let w = self.wires@[k as int];
                    assert(forall|j: int| k < j < self.wires@.len() ==> (#[trigger] self.wires@[j])@ != w@);
                    assert(self@.dom().contains(w@));
                    assert(self@[w@] == self.values@[k as int]);
                    assert(high(w@) && self@.dom().contains(w@) && self@[w@]);
                }
                return true;
            }
            k += 1;
        }
        proof {
            lemma_chart(self.wires@, self.values@, self.wires@.len() as int);
            assert forall|w: Name| high(w) && self@.dom().contains(w) implies !#[trigger] self@[w] by {
                let j = choose|j: int| 0 <= j < self.wires@.len() && (#[trigger] self.wires@[j])@ == w;
                assert(forall|i: int| j < i < self.wires@.len() ==> (#[trigger] self.wires@[i])@ != w);
                assert(self@[self.wires@[j]@] == self.values@[j]);
            }
        }
        false
    }
}

/// A wire `z` with a number of 64 or more.
pub open spec fn high(w: Name) -> bool {
    match w {
        Name::Z(bit) => bit >= 64,
        _ => false,
    }
}

/// A wire `z` with a number of 64 or more has the signal one.
pub open spec fn too_high(signals: Map<Name, bool>) -> bool {
    exists|w: Name| high(w) && signals.dom().contains(w) && #[trigger] signals[w]
}

/// The number that the signals of the wires `z` under `n` write in base two,
/// the wire `z00` being the lowest bit.
pub open spec fn reading(signals: Map<Name, bool>, n: int) -> int
    decreases n,
{
    if n <= 0 {
        0
    } else {
        reading(signals, n - 1) + if signals.dom().contains(Name::Z((n - 1) as u64)) && signals[Name::Z(
            (n - 1) as u64,
        )] {
            (1u64 << ((n - 1) as u64)) as int
        } else {
            0
        }
    }
}

/// The number that the wires `z` write, or `None` where it has more than 64
/// bits.
pub open spec fn number_of(signals: Map<Name, bool>) -> Option<u64> {
    if too_high(signals) {
        None
    } else {
        Some(reading(signals, 64) as u64)
    }
}

/// The signal that a gate puts out.
pub open spec fn gate_out(op: Op, lhs: bool, rhs: bool) -> bool {
    match op {
        Op::And => lhs && rhs,
        Op::Or => lhs || rhs,
        Op::Xor => lhs != rhs,
    }
}

/// The signals once every gate of the list was evaluated. A gate whose inputs
/// have signals is taken from the list and gives its output a signal; another
/// is put back at the end. `None` where as many gates as the list holds were
/// put back in a row.
pub open spec fn settled(signals: Map<Name, bool>, gates: Seq<Link>, postpones: nat) -> Option<
    Map<Name, bool>,
>
    decreases gates.len(), gates.len() + 1 - postpones,
{
    if gates.len() == 0 {
        Some(signals)
    } else if postpones > gates.len() {
        None
    } else {
        let gate = gates[0];
        let rest = gates.drop_first();
        if signals.dom().contains(gate.lhs) && signals.dom().contains(gate.rhs) {
            settled(
                signals.insert(gate.out, gate_out(gate.op, signals[gate.lhs], signals[gate.rhs])),
                rest,
                0,
            )
        } else {
            settled(signals, rest.push(gate), postpones + 1)
        }
    }
}

/// What the gates of a list join.
pub open spec fn links(gates: Seq<Gate>) -> Seq<Link> {
    Seq::new(gates.len(), |i: int| gates[i]@)
}

/// The number that the wires `z` write once the circuit has settled, or `None`
/// where it does not settle or the number has more than 64 bits.
pub open spec fn value_of(signals: Map<Name, bool>, gates: Seq<Link>) -> Option<u64> {
    match settled(signals, gates, 0) {
        Some(all) => number_of(all),
        None => None,
    }
}

/// The number that the wires `z` write, or `None` where it has more than 64
/// bits.
pub fn read_number_of(available: &WireValueMap) -> (r: Option<u64>)
    requires
        available.wf(),
    ensures
        r == number_of(available@),
{
    if available.any_high() {
        return None;
    }
    let mut total: u64 = 0;
    let mut bit: u64 = 0;
    assert((1u64 << 0u64) == 1) by (bit_vector);
    while bit < 64
        invariant
            bit <= 64,
            available.wf(),
            total == reading(available@, bit as int),
            bit < 64 ==> total < (1u64 << bit),
        decreases 64 - bit,
    {
        let one: u64 = 1u64 << bit;
        assert(bit < 63 ==> (1u64 << ((bit + 1) as u64)) == 2 * (1u64 << bit)) by (bit_vector)
            requires
                bit < 64,
        ;
        assert(bit == 63 ==> (1u64 << bit) == 0x8000_0000_0000_0000) by (bit_vector);
        if let Some(true) = available.get(&Wire::Z(bit)) {
            total = total + one;
        }
        bit += 1;
    }
    Some(total)
}

/// Evaluate gates based on availability of their input signals.
///
/// Maintains a mapping of available wire signals, and a worklist of gates.
///
/// When both input signals of a gate remaining in the worklist are available,
/// that gate is removed from the worklist, evaluated, and the signal on the
/// output wire becomes available. When not all input signals are available, the
/// gate evaluation is postponed.
///
/// Return `None` if the circuit is not well-formed.
pub fn evaluate_circuit(available: WireValueMap, gates: GateVec) -> (r: Option<u64>)
    requires
        available.wf(),
    ensures
        r == value_of(available@, links(gates@)),
{
    let mut signals = available;
    let mut queue = gates;
    let mut postpones: usize = 0;
    loop
        invariant
            signals.wf(),
            postpones <= queue@.len(),
            settled(available@, links(gates@), 0) == settled(
                signals@,
                links(queue@),
                postpones as nat,
            ),
        decreases queue@.len(), queue@.len() - postpones,
    {
        let ghost before = links(queue@);
        match queue.pop_front() {
            None => {
                return read_number_of(&signals);
            },
            Some(gate) => {
                assert(before[0] == gate@);
                assert(links(queue@) =~= before.drop_first());
                match (signals.get(&gate.lhs), signals.get(&gate.rhs)) {
                    (Some(lhs), Some(rhs)) => {
                        let out = match gate.op {
                            Op::And => lhs && rhs,
                            Op::Or => lhs || rhs,
                            Op::Xor => lhs != rhs,
                        };
                        signals.insert(gate.out, out);
                        postpones = 0;
                    },
                    _ => {
                        let ghost rest = links(queue@);
                        queue.push_back(gate);
                        assert(links(queue@) =~= rest.push(gate@));
                        if postpones >= queue.len() {
                            proof {
                                let next = settled(signals@, links(queue@), (postpones + 1) as nat);
                                assert(next is None);
                                assert(settled(signals@, before, postpones as nat) == next);
                            }
                            return None;
                        }
                        postpones += 1;
                    },
                }
            },
        }
    }
}

/// The characters that are white space.
pub open spec fn is_white(c: char) -> bool {
    let u = c as u32;
    ||| 0x09 <= u <= 0x0D
    ||| u == 0x20
    ||| u == 0x85
    ||| u == 0xA0
    ||| u == 0x1680
    ||| 0x2000 <= u <= 0x200A
    ||| u == 0x2028
    ||| u == 0x2029
    ||| u == 0x202F
    ||| u == 0x205F
    ||| u == 0x3000
}

pub fn is_white_char(c: char) -> (r: bool)
    ensures
        r == is_white(c),
{
    let u = c as u32;
    (0x09 <= u && u <= 0x0D) || u == 0x20 || u == 0x85 || u == 0xA0 || u == 0x1680 || (0x2000 <= u
        && u <= 0x200A) || u == 0x2028 || u == 0x2029 || u == 0x202F || u == 0x205F || u == 0x3000
}

/// The first place at or after `from` that holds no white space, or the length.
pub open spec fn lead(s: Seq<char>, from: int) -> int
    decreases s.len() - from,
{
    if 0 <= from < s.len() && is_white(s[from]) {
        lead(s, from + 1)
    } else {
        from
    }
}

/// The end of the text before `to` without the white space that it ends with,
/// and not less than `least`.
pub open spec fn tail(s: Seq<char>, least: int, to: int) -> int
    decreases to,
{
    if 0 <= least < to <= s.len() && is_white(s[to - 1]) {
        tail(s, least, to - 1)
    } else {
        to
    }
}

/// The text without the white space that it starts and ends with.
pub open spec fn trimmed(s: Seq<char>) -> Seq<char> {
    s.subrange(lead(s, 0), tail(s, lead(s, 0), s.len() as int))
}

/// The text without the white space that it starts and ends with.
pub fn trim(s: &Vec<char>) -> (r: Vec<char>)
    ensures
        r@ == trimmed(s@),
{
    let mut start: usize = 0;
    while start < s.len() && is_white_char(s[start])
        invariant
            start <= s@.len(),
            lead(s@, 0) == lead(s@, start as int),
        decreases s@.len() - start,
    {
        start += 1;
    }
    let mut end: usize = s.len();
    while start < end && is_white_char(s[end - 1])
        invariant
            start <= end <= s@.len(),
            tail(s@, start as int, s@.len() as int) == tail(s@, start as int, end as int),
        decreases end,
    {
        end -= 1;
    }
    slice(s, start, end)
}

/// The rows of a text: its lines, each without the white space around it.
pub open spec fn rows_of(input: Seq<char>) -> Seq<Seq<char>> {
    Seq::new(lines(input).len(), |i: int| trimmed(lines(input)[i]))
}

/// The rows of a text.
pub fn rows(input: &str) -> (r: Vec<Vec<char>>)
    ensures
        rows_view(r@) == rows_of(input@),
{
    let raw = split_lines(&chars(input));
    let mut r: Vec<Vec<char>> = Vec::new();
    let mut i: usize = 0;
    while i < raw.len()
        invariant
            i <= raw@.len(),
            rows_view(raw@) == lines(input@),
            r@.len() == i,
            forall|k: int| 0 <= k < i ==> (#[trigger] r@[k])@ == trimmed(lines(input@)[k]),
        decreases raw@.len() - i,
    {
        assert(rows_view(raw@)[i as int] == raw@[i as int]@);
        r.push(trim(&raw[i]));
        i += 1;
    }
    assert(rows_view(r@) =~= rows_of(input@));
    r
}

/// The wire and the signal that a row gives: the first three characters name
/// the wire, and the sixth is `0` for the signal zero.
pub open spec fn signal_of(row: Seq<char>) -> Option<(Name, bool)> {
    if row.len() >= 6 {
        match wire_of(row.subrange(0, 3)) {
            Some(w) => Some((w, row[5] != '0')),
            None => None,
        }
    } else {
        None
    }
}

/// The operation that a word names.
pub open spec fn op_of(word: Seq<char>) -> Option<Op> {
    if word.len() == 3 && word[0] == 'A' && word[1] == 'N' && word[2] == 'D' {
        Some(Op::And)
    } else if word.len() == 2 && word[0] == 'O' && word[1] == 'R' {
        Some(Op::Or)
    } else if word.len() == 3 && word[0] == 'X' && word[1] == 'O' && word[2] == 'R' {
        Some(Op::Xor)
    } else {
        None
    }
}

/// A gate of two inputs, the lesser one first.
pub open spec fn link_of(op: Op, a: Name, b: Name, out: Name) -> Link {
    if wire_le(a, b) && a != b {
        Link { op, lhs: a, rhs: b, out }
    } else {
        Link { op, lhs: b, rhs: a, out }
    }
}

/// What gate a row writes: of its words between single spaces the first
/// and the third are the inputs, the second the operation, the fifth the
/// output.
pub open spec fn gate_of(row: Seq<char>) -> Option<Link> {
    let parts = pieces(row, ' ');
    if parts.len() >= 5 {
        match (wire_of(parts[0]), op_of(parts[1]), wire_of(parts[2]), wire_of(parts[4])) {
            (Some(a), Some(op), Some(b), Some(out)) => Some(link_of(op, a, b, out)),
            _ => None,
        }
    } else {
        None
    }
}

/// The first place at or after `from` that holds an empty row, or the number
/// of rows.
pub open spec fn gap(rows: Seq<Seq<char>>, from: int) -> int
    decreases rows.len() - from,
{
    if 0 <= from < rows.len() && rows[from].len() > 0 {
        gap(rows, from + 1)
    } else {
        from
    }
}

/// The signals that the first `n` rows give, or `None` where one of them gives
/// none.
pub open spec fn signals_in(rows: Seq<Seq<char>>, n: int) -> Option<Map<Name, bool>>
    decreases n,
{
    if n <= 0 {
        Some(Map::empty())
    } else {
        match (signals_in(rows, n - 1), signal_of(rows[n - 1])) {
            (Some(before), Some((w, value))) => Some(before.insert(w, value)),
            _ => None,
        }
    }
}

/// The gates that the rows from `from` up to `n` write, or `None` where one of
/// them writes none.
pub open spec fn gates_in(rows: Seq<Seq<char>>, from: int, n: int) -> Option<Seq<Link>>
    decreases n - from,
{
    if n <= from {
        Some(Seq::empty())
    } else {
        match (gates_in(rows, from, n - 1), gate_of(rows[n - 1])) {
            (Some(before), Some(gate)) => Some(before.push(gate)),
            _ => None,
        }
    }
}

/// The signals and the gates that a text writes: the signals row by row up to
/// the first empty row, the gates in the rows after it.
pub open spec fn circuit_of(input: Seq<char>) -> Option<(Map<Name, bool>, Seq<Link>)> {
    let all = rows_of(input);
    let at = gap(all, 0);
    match (signals_in(all, at), gates_in(all, at + 1, all.len() as int)) {
        (Some(signals), Some(gates)) => Some((signals, gates)),
        _ => None,
    }
}

/// The wire and the signal that a row gives.
pub fn read_signal(row: &Vec<char>) -> (r: Option<(Wire, bool)>)
    ensures
        match r {
            Some((w, value)) => signal_of(row@) == Some((w@, value)),
            None => signal_of(row@) is None,
        },
{
    if row.len() < 6 {
        return None;
    }
    match wire(&slice(row, 0, 3)) {
        Some(w) => Some((w, row[5] != '0')),
        None => None,
    }
}

/// The operation that a word names.
pub fn read_op(word: &Vec<char>) -> (r: Option<Op>)
    ensures
        r == op_of(word@),
{
    if word.len() == 3 && word[0] == 'A' && word[1] == 'N' && word[2] == 'D' {
        Some(Op::And)
    } else if word.len() == 2 && word[0] == 'O' && word[1] == 'R' {
        Some(Op::Or)
    } else if word.len() == 3 && word[0] == 'X' && word[1] == 'O' && word[2] == 'R' {
        Some(Op::Xor)
    } else {
        None
    }
}

/// What gate a row writes.
pub fn read_gate(row: &Vec<char>) -> (r: Option<Gate>)
    ensures
        match r {
            Some(gate) => gate_of(row@) == Some(gate@),
            None => gate_of(row@) is None,
        },
{
    let parts = split_on(row, ' ');
    let ghost words = pieces(row@, ' ');
    if parts.len() < 5 {
        return None;
    }
    assert(words[0] == parts@[0]@ && words[1] == parts@[1]@ && words[2] == parts@[2]@ && words[4]
        == parts@[4]@);
    match (wire(&parts[0]), read_op(&parts[1]), wire(&parts[2]), wire(&parts[4])) {
        (Some(a), Some(op), Some(b), Some(out)) => {
            if wire_before(&a, &b) && !same_wire(&a, &b) {
                Some(Gate { op, lhs: a, rhs: b, out })
            } else {
                Some(Gate { op, lhs: b, rhs: a, out })
            }
        },
        _ => None,
    }
}

/// Read the signals and the gates, or `None` where a row writes neither.
pub fn prepare(input: &str) -> (r: Option<(WireValueMap, GateVec)>)
    ensures
        match r {
            Some((available, gates)) => {
                &&& available.wf()
                &&& circuit_of(input@) == Some((available@, links(gates@)))
            },
            None => circuit_of(input@) is None,
        },
{
    let all = rows(input);
    let ghost text_rows = rows_of(input@);
    let mut available = WireValueMap::new();
    let mut i: usize = 0;
    while i < all.len() && all[i].len() > 0
        invariant
            i <= all@.len(),
            text_rows == rows_view(all@),
            text_rows == rows_of(input@),
            available.wf(),
            gap(text_rows, 0) == gap(text_rows, i as int),
            signals_in(text_rows, i as int) == Some(available@),
        decreases all@.len() - i,
    {
        assert(text_rows[i as int] == all@[i as int]@);
        match read_signal(&all[i]) {
            Some((w, value)) => {
                available.insert(w, value);
            },
            None => {
                proof {
                    lemma_gap_bounds(text_rows, i + 1);
                    assert(gap(text_rows, i as int) == gap(text_rows, i + 1));
                    assert(signals_in(text_rows, i + 1) is None);
                    lemma_signals_stay_none(text_rows, i + 1, gap(text_rows, 0));
                }
                return None;
            },
        }
        i += 1;
    }
    proof {
        if i < all@.len() {
            assert(text_rows[i as int] == all@[i as int]@);
        }
        assert(gap(text_rows, 0) == i);
    }
    let mut gates: GateVec = VecDeque::new();
    if i == all.len() {
        assert(links(gates@) =~= Seq::<Link>::empty());
        return Some((available, gates));
    }
    let from = i + 1;
    let mut k: usize = from;
    assert(links(gates@) =~= Seq::<Link>::empty());
    while k < all.len()
        invariant
            from <= k <= all@.len(),
            text_rows == rows_view(all@),
            text_rows == rows_of(input@),
            from == gap(text_rows, 0) + 1,
            signals_in(text_rows, gap(text_rows, 0)) is Some,
            gates_in(text_rows, from as int, k as int) == Some(links(gates@)),
        decreases all@.len() - k,
    {
        assert(text_rows[k as int] == all@[k as int]@);
        let ghost before = links(gates@);
        match read_gate(&all[k]) {
            Some(gate) => {
                gates.push_back(gate);
                assert(links(gates@) =~= before.push(gate@));
            },
            None => {
                proof {
                    assert(gates_in(text_rows, from as int, k + 1) is None);
                    lemma_gates_stay_none(text_rows, from as int, k + 1, all@.len() as int);
                    assert(text_rows.len() == all@.len());
                }
                return None;
            },
        }
        k += 1;
    }
    Some((available, gates))
}

/// The first empty row at or after `from` is not before `from`.
pub proof fn lemma_gap_bounds(rows: Seq<Seq<char>>, from: int)
    requires
        0 <= from <= rows.len(),
    ensures
        from <= gap(rows, from) <= rows.len(),
    decreases rows.len() - from,
{
    if from < rows.len() && rows[from].len() > 0 {
        lemma_gap_bounds(rows, from + 1);
    }
}

/// Where some rows give no signals, more rows give none either.
pub proof fn lemma_signals_stay_none(rows: Seq<Seq<char>>, n: int, m: int)
    requires
        n <= m,
        signals_in(rows, n) is None,
    ensures
        signals_in(rows, m) is None,
    decreases m - n,
{
    if n < m {
        lemma_signals_stay_none(rows, n, m - 1);
    }
}

/// Where some rows write no gates, more rows write none either.
pub proof fn lemma_gates_stay_none(rows: Seq<Seq<char>>, from: int, n: int, m: int)
    requires
        n <= m,
        gates_in(rows, from, n) is None,
    ensures
        gates_in(rows, from, m) is None,
    decreases m - n,
{
    if n < m {
        lemma_gates_stay_none(rows, from, n, m - 1);
    }
}

/// The number that the wires `z` of the circuit of a text write, or `None`.
pub open spec fn part1(input: Seq<char>) -> Option<u64> {
    match circuit_of(input) {
        Some((signals, gates)) => value_of(signals, gates),
        None => None,
    }
}

pub fn solve_part1(input: &str) -> (r: Option<u64>)
    ensures
        r == part1(input@),
{
    match prepare(input) {
        Some((available, gates)) => evaluate_circuit(available, gates),
        None => None,
    }
}

/// A gate that joins the two wires, in either order, by the operation.
pub open spec fn is_op(g: Link, w1: Name, w2: Name, op: Op) -> bool {
    g.op == op && ((g.lhs == w1 && g.rhs == w2) || (g.lhs == w2 && g.rhs == w1))
}

/// A gate that joins the carry and another wire by `XOR` into `z`.
pub open spec fn feeds(g: Link, carry: Name, z: Name) -> bool {
    g.op == Op::Xor && (g.lhs == carry || g.rhs == carry) && g.out == z
}

/// The first gate at or after `from` that joins the two wires by the
/// operation.
pub open spec fn first_op(gates: Seq<Link>, w1: Name, w2: Name, op: Op, from: int) -> Option<int>
    decreases gates.len() - from,
{
    if from < 0 || from >= gates.len() {
        None
    } else if is_op(gates[from], w1, w2, op) {
        Some(from)
    } else {
        first_op(gates, w1, w2, op, from + 1)
    }
}

/// The first gate at or after `from` that joins the carry and another wire by
/// `XOR` into `z`.
pub open spec fn first_feeding(gates: Seq<Link>, carry: Name, z: Name, from: int) -> Option<int>
    decreases gates.len() - from,
{
    if from < 0 || from >= gates.len() {
        None
    } else if feeds(gates[from], carry, z) {
        Some(from)
    } else {
        first_feeding(gates, carry, z, from + 1)
    }
}

/// The first gate at or after `from` that joins the first two wires of the
/// inputs by `XOR` into the first of the output.
pub open spec fn first_low(gates: Seq<Link>, from: int) -> Option<int>
    decreases gates.len() - from,
{
    if from < 0 || from >= gates.len() {
        None
    } else if is_op(gates[from], Name::X(0), Name::Y(0), Op::Xor) && gates[from].out == Name::Z(0) {
        Some(from)
    } else {
        first_low(gates, from + 1)
    }
}

/// A gate with the output `a` in place of `b`, and `b` in place of `a`.
pub open spec fn rewired(g: Link, a: Name, b: Name) -> Link {
    if g.out == a {
        Link { op: g.op, lhs: g.lhs, rhs: g.rhs, out: b }
    } else if g.out == b {
        Link { op: g.op, lhs: g.lhs, rhs: g.rhs, out: a }
    } else {
        g
    }
}

/// The gates with the outputs `a` and `b` exchanged.
pub open spec fn exchanged(gates: Seq<Link>, a: Name, b: Name) -> Seq<Link> {
    Seq::new(gates.len(), |i: int| rewired(gates[i], a, b))
}

/// The two wires whose exchange sets the sum of the bit `i` right, given the
/// carry into it; none where the sum is right; `None` where the gates of the
/// bit are not found.
pub open spec fn mended(gates: Seq<Link>, carry: Name, i: u64) -> Option<Seq<Name>> {
    match first_op(gates, Name::X(i), Name::Y(i), Op::Xor, 0) {
        Some(half) => match first_op(gates, gates[half].out, carry, Op::Xor, 0) {
            Some(whole) => if gates[whole].out != Name::Z(i) {
                Some(seq![Name::Z(i), gates[whole].out])
            } else {
                Some(Seq::empty())
            },
            None => match first_feeding(gates, carry, Name::Z(i), 0) {
                Some(other) => Some(
                    seq![
                        if gates[other].lhs == carry {
                            gates[other].rhs
                        } else {
                            gates[other].lhs
                        },
                        gates[half].out,
                    ],
                ),
                None => None,
            },
        },
        None => None,
    }
}

/// The gates after an exchange of two wires, or of none.
pub open spec fn mend(gates: Seq<Link>, pair: Seq<Name>) -> Seq<Link> {
    if pair.len() == 2 {
        exchanged(gates, pair[0], pair[1])
    } else {
        gates
    }
}

/// The carry out of the bit `i`, given the carry into it: the output of the
/// gate that joins by `OR` the `AND` of the inputs and the `AND` of their `XOR`
/// with the carry; `None` where these gates are not found.
pub open spec fn carried(gates: Seq<Link>, carry: Name, i: u64) -> Option<Name> {
    match (
        first_op(gates, Name::X(i), Name::Y(i), Op::Xor, 0),
        first_op(gates, Name::X(i), Name::Y(i), Op::And, 0),
    ) {
        (Some(half), Some(both)) => match first_op(gates, gates[half].out, carry, Op::And, 0) {
            Some(through) => match first_op(
                gates,
                gates[both].out,
                gates[through].out,
                Op::Or,
                0,
            ) {
                Some(out) => Some(gates[out].out),
                None => None,
            },
            None => None,
        },
        _ => None,
    }
}

/// The wires exchanged to set the bits from `i` up to `n` right, after those
/// exchanged before.
pub open spec fn fixing(gates: Seq<Link>, carry: Name, done: Seq<Name>, i: u64, n: u64) -> Option<
    Seq<Name>,
>
    decreases n - i,
{
    if i >= n {
        Some(done)
    } else {
        match mended(gates, carry, i) {
            Some(pair) => match carried(mend(gates, pair), carry, i) {
                Some(next) => fixing(mend(gates, pair), next, done + pair, (i + 1) as u64, n),
                None => None,
            },
            None => None,
        }
    }
}

/// The wires exchanged to make the gates an adder of numbers of `n` bits, in
/// the order in which they are found.
pub open spec fn fixes(gates: Seq<Link>, n: u64) -> Option<Seq<Name>> {
    match (first_low(gates, 0), first_op(gates, Name::X(0), Name::Y(0), Op::And, 0)) {
        (Some(_), Some(carry)) => fixing(gates, gates[carry].out, Seq::empty(), 1, n),
        _ => None,
    }
}

fn same_op(a: Op, b: Op) -> (r: bool)
    ensures
        r == (a == b),
{
    match (a, b) {
        (Op::And, Op::And) => true,
        (Op::Or, Op::Or) => true,
        (Op::Xor, Op::Xor) => true,
        _ => false,
    }
}

pub fn match_op(gate: &Gate, w1: &Wire, w2: &Wire, op: Op) -> (r: bool)
    ensures
        r == is_op(gate@, w1@, w2@, op),
{
    same_op(gate.op, op) && ((same_wire(&gate.lhs, w1) && same_wire(&gate.rhs, w2)) || (same_wire(
        &gate.lhs,
        w2,
    ) && same_wire(&gate.rhs, w1)))
}

pub fn match_xor(gate: &Gate, w1: &Wire, w2: &Wire) -> (r: bool)
    ensures
        r == is_op(gate@, w1@, w2@, Op::Xor),
{
    match_op(gate, w1, w2, Op::Xor)
}

pub fn match_or(gate: &Gate, w1: &Wire, w2: &Wire) -> (r: bool)
    ensures
        r == is_op(gate@, w1@, w2@, Op::Or),
{
    match_op(gate, w1, w2, Op::Or)
}

pub fn match_and(gate: &Gate, w1: &Wire, w2: &Wire) -> (r: bool)
    ensures
        r == is_op(gate@, w1@, w2@, Op::And),
{
    match_op(gate, w1, w2, Op::And)
}

pub fn match_out(gate: &Gate, out: &Wire) -> (r: bool)
    ensures
        r == (gate@.out == out@),
{
    same_wire(&gate.out, out)
}

/// The first gate that joins the two wires by the operation.
fn find_op(gates: &Vec<Gate>, w1: &Wire, w2: &Wire, op: Op) -> (r: Option<usize>)
    ensures
        match r {
            Some(at) => at < gates@.len() && first_op(links(gates@), w1@, w2@, op, 0) == Some(
                at as int,
            ),
            None => first_op(links(gates@), w1@, w2@, op, 0) is None,
        },
{
    let ghost all = links(gates@);
    let mut i: usize = 0;
    while i < gates.len()
        invariant
            i <= gates@.len(),
            all == links(gates@),
            first_op(all, w1@, w2@, op, 0) == first_op(all, w1@, w2@, op, i as int),
        decreases gates@.len() - i,
    {
        assert(all[i as int] == gates@[i as int]@);
        if match_op(&gates[i], w1, w2, op) {
            return Some(i);
        }
        i += 1;
    }
    None
}

/// The first gate that joins the carry and another wire by `XOR` into `z`.
fn find_feeding(gates: &Vec<Gate>, carry: &Wire, z: &Wire) -> (r: Option<usize>)
    ensures
        match r {
            Some(at) => at < gates@.len() && first_feeding(links(gates@), carry@, z@, 0) == Some(
                at as int,
            ),
            None => first_feeding(links(gates@), carry@, z@, 0) is None,
        },
{
    let ghost all = links(gates@);
    let mut i: usize = 0;
    while i < gates.len()
        invariant
            i <= gates@.len(),
            all == links(gates@),
            first_feeding(all, carry@, z@, 0) == first_feeding(all, carry@, z@, i as int),
        decreases gates@.len() - i,
    {
        assert(all[i as int] == gates@[i as int]@);
        let g = &gates[i];
        if same_op(g.op, Op::Xor) && (same_wire(&g.lhs, carry) || same_wire(&g.rhs, carry))
            && same_wire(&g.out, z) {
            return Some(i);
        }
        i += 1;
    }
    None
}

/// The first gate that joins the first two wires of the inputs by `XOR` into
/// the first of the output.
fn find_low(gates: &Vec<Gate>) -> (r: Option<usize>)
    ensures
        match r {
            Some(at) => first_low(links(gates@), 0) == Some(at as int),
            None => first_low(links(gates@), 0) is None,
        },
{
    let ghost all = links(gates@);
    let mut i: usize = 0;
    while i < gates.len()
        invariant
            i <= gates@.len(),
            all == links(gates@),
            first_low(all, 0) == first_low(all, i as int),
        decreases gates@.len() - i,
    {
        assert(all[i as int] == gates@[i as int]@);
        if match_xor(&gates[i], &Wire::X(0), &Wire::Y(0)) && match_out(&gates[i], &Wire::Z(0)) {
            return Some(i);
        }
        i += 1;
    }
    None
}

/// The gates with the outputs `a` and `b` exchanged.
pub fn exchange(gates: &Vec<Gate>, a: &Wire, b: &Wire) -> (r: Vec<Gate>)
    ensures
        links(r@) == exchanged(links(gates@), a@, b@),
{
    let mut r: Vec<Gate> = Vec::new();
    let mut i: usize = 0;
    while i < gates.len()
        invariant
            i <= gates@.len(),
            r@.len() == i,
            forall|k: int| 0 <= k < i ==> (#[trigger] r@[k])@ == rewired(gates@[k]@, a@, b@),
        decreases gates@.len() - i,
    {
        let g = &gates[i];
        let out = if same_wire(&g.out, a) {
            copy_wire(b)
        } else if same_wire(&g.out, b) {
            copy_wire(a)
        } else {
            copy_wire(&g.out)
        };
        r.push(Gate { op: g.op, lhs: copy_wire(&g.lhs), rhs: copy_wire(&g.rhs), out });
        i += 1;
    }
    assert(links(r@) =~= exchanged(links(gates@), a@, b@));
    r
}

/// What the wires of a list are named.
pub open spec fn names(wires: Seq<Wire>) -> Seq<Name> {
    Seq::new(wires.len(), |i: int| wires[i]@)
}

/// The two wires whose exchange sets the sum of the bit `i` right, or none.
fn mending(gates: &Vec<Gate>, carry: &Wire, i: u64) -> (r: Option<Vec<Wire>>)
    ensures
        match r {
            Some(pair) => mended(links(gates@), carry@, i) == Some(names(pair@)) && (pair@.len() == 0
                || pair@.len() == 2),
            None => mended(links(gates@), carry@, i) is None,
        },
{
    let ghost all = links(gates@);
    let z = Wire::Z(i);
    let half = match find_op(gates, &Wire::X(i), &Wire::Y(i), Op::Xor) {
        Some(half) => half,
        None => {
            return None;
        },
    };
    assert(all[half as int] == gates@[half as int]@);
    let mut pair: Vec<Wire> = Vec::new();
    match find_op(gates, &gates[half].out, carry, Op::Xor) {
        Some(whole) => {
            assert(all[whole as int] == gates@[whole as int]@);
            if !same_wire(&gates[whole].out, &z) {
                pair.push(z);
                pair.push(copy_wire(&gates[whole].out));
                assert(names(pair@) =~= seq![Name::Z(i), all[whole as int].out]);
            } else {
                assert(names(pair@) =~= Seq::<Name>::empty());
            }
        },
        None => {
            let other = match find_feeding(gates, carry, &z) {
                Some(other) => other,
                None => {
                    return None;
                },
            };
            assert(all[other as int] == gates@[other as int]@);
            let k = if same_wire(&gates[other].lhs, carry) {
                copy_wire(&gates[other].rhs)
            } else {
                copy_wire(&gates[other].lhs)
            };
            pair.push(k);
            pair.push(copy_wire(&gates[half].out));
            assert(names(pair@) =~= seq![
                if all[other as int].lhs == carry@ {
                    all[other as int].rhs
                } else {
                    all[other as int].lhs
                },
                all[half as int].out,
            ]);
        },
    }
    Some(pair)
}

/// The carry out of the bit `i`.
fn carry_of(gates: &Vec<Gate>, carry: &Wire, i: u64) -> (r: Option<Wire>)
    ensures
        match r {
            Some(next) => carried(links(gates@), carry@, i) == Some(next@),
            None => carried(links(gates@), carry@, i) is None,
        },
{
    let ghost all = links(gates@);
    let half = find_op(gates, &Wire::X(i), &Wire::Y(i), Op::Xor);
    let both = find_op(gates, &Wire::X(i), &Wire::Y(i), Op::And);
    match (half, both) {
        (Some(half), Some(both)) => {
            assert(all[half as int] == gates@[half as int]@);
            assert(all[both as int] == gates@[both as int]@);
            match find_op(gates, &gates[half].out, carry, Op::And) {
                Some(through) => {
                    assert(all[through as int] == gates@[through as int]@);
                    match find_op(gates, &gates[both].out, &gates[through].out, Op::Or) {
                        Some(out) => {
                            assert(all[out as int] == gates@[out as int]@);
                            Some(copy_wire(&gates[out].out))
                        },
                        None => None,
                    }
                },
                None => None,
            }
        },
        _ => None,
    }
}

/// Find permutations that fix the adder circuit.
///
/// The circuit is a classical adder with carry: the gates expected for each
/// bit are looked up, and the outputs found exchanged are collected in the
/// order in which they are found. `None` where an expected gate is missing.
pub fn find_fixes(gates: Vec<Gate>, input_len: u64) -> (r: Option<Vec<Wire>>)
    ensures
        match r {
            Some(permuted) => fixes(links(gates@), input_len) == Some(names(permuted@)),
            None => fixes(links(gates@), input_len) is None,
        },
{
    if find_low(&gates).is_none() {
        return None;
    }
    let first = match find_op(&gates, &Wire::X(0), &Wire::Y(0), Op::And) {
        Some(first) => first,
        None => {
            return None;
        },
    };
    assert(links(gates@)[first as int] == gates@[first as int]@);
    let mut carry = copy_wire(&gates[first].out);
    let mut permuted: Vec<Wire> = Vec::new();
    let mut current = gates;
    let mut i: u64 = 1;
    assert(names(permuted@) =~= Seq::<Name>::empty());
    while i < input_len
        invariant
            1 <= i,
            fixes(links(gates@), input_len) == fixing(
                links(current@),
                carry@,
                names(permuted@),
                i,
                input_len,
            ),
        decreases input_len - i,
    {
        let mut pair = match mending(&current, &carry, i) {
            Some(pair) => pair,
            None => {
                return None;
            },
        };
        let ghost before = links(current@);
        let ghost done = names(permuted@);
        let ghost both = names(pair@);
        if pair.len() == 2 {
            current = exchange(&current, &pair[0], &pair[1]);
        }
        assert(links(current@) == mend(before, both));
        carry = match carry_of(&current, &carry, i) {
            Some(next) => next,
            None => {
                return None;
            },
        };
        permuted.append(&mut pair);
        assert(names(permuted@) =~= done + both);
        i += 1;
    }
    Some(permuted)
}

/// The wires stand in order.
pub open spec fn in_wire_order(wires: Seq<Name>) -> bool {
    forall|a: int, b: int| 0 <= a < b < wires.len() ==> wire_le(#[trigger] wires[a], #[trigger] wires[b])
}

/// The wires in order.
pub fn sort_wires(wires: Vec<Wire>) -> (r: Vec<Wire>)
    ensures
        in_wire_order(names(r@)),
        names(r@).to_multiset() == names(wires@).to_multiset(),
{
    let mut wires = wires;
    let ghost all = names(wires@);
    let mut r: Vec<Wire> = Vec::new();
    proof {
        assert(all =~= names(wires@) + names(r@));
    }
    while wires.len() > 0
        invariant
            in_wire_order(names(r@)),
            all.to_multiset() == (names(wires@) + names(r@)).to_multiset(),
        decreases wires@.len(),
    {
        let ghost left = names(wires@);
        let ghost done = names(r@);
        let x = match wires.pop() {
            Some(x) => x,
            None => Wire::X(0),
        };
        let mut p: usize = 0;
        while p < r.len() && wire_before(&r[p], &x)
            invariant
                p <= r@.len(),
                done == names(r@),
                forall|k: int| 0 <= k < p ==> wire_le(#[trigger] done[k], x@),
            decreases r@.len() - p,
        {
            assert(done[p as int] == r@[p as int]@);
            p += 1;
        }
        proof {
            if p < r.len() {
                assert(done[p as int] == r@[p as int]@);
                lemma_wire_le_total(done[p as int], x@);
            }
        }
        r.insert(p, x);
        proof {
            let after = names(r@);
            let rest = names(wires@);
            assert(after =~= done.insert(p as int, x@));
            assert(left =~= rest.push(x@));
            assert(left + done =~= (rest + done).insert(rest.len() as int, x@));
            assert(rest + after =~= (rest + done).insert(rest.len() + p, x@));
            vstd::seq_lib::to_multiset_insert(rest + done, rest.len() as int, x@);
            vstd::seq_lib::to_multiset_insert(rest + done, rest.len() + p, x@);
            assert forall|a: int, b: int| 0 <= a < b < after.len() implies wire_le(
                #[trigger] after[a],
                #[trigger] after[b],
            ) by {
                if b < p {
                    assert(wire_le(done[a], done[b]));
                } else if b == p {
                    assert(wire_le(done[a], x@));
                } else if a < p {
                    assert(wire_le(done[a], done[b - 1]));
                } else if a == p {
                    if b - 1 > p {
                        assert(wire_le(done[p as int], done[b - 1]));
                        lemma_wire_le_transitive(x@, done[p as int], done[b - 1]);
                    }
                } else {
                    assert(wire_le(done[a - 1], done[b - 1]));
                }
            }
        }
    }
    proof {
        assert(names(wires@) + names(r@) =~= names(r@));
    }
    r
}

/// A number in base ten, with a zero before a single digit.
pub open spec fn two_digits(i: u64) -> Seq<char> {
    if i < 10 {
        seq!['0'] + digits(i as nat)
    } else {
        digits(i as nat)
    }
}

/// How a wire is written: a numbered wire by its letter and its number in two
/// digits at least.
pub open spec fn name_of(w: Name) -> Seq<char> {
    match w {
        Name::Other(name) => name,
        Name::X(i) => seq!['x'] + two_digits(i),
        Name::Y(i) => seq!['y'] + two_digits(i),
        Name::Z(i) => seq!['z'] + two_digits(i),
    }
}

/// A letter and a number in two digits at least.
fn numbered(letter: char, i: u64) -> (r: Vec<char>)
    ensures
        r@ == seq![letter] + two_digits(i),
{
    let mut r: Vec<char> = Vec::new();
    r.push(letter);
    if i < 10 {
        r.push('0');
    }
    let mut number = decimal(i);
    r.append(&mut number);
    assert(r@ =~= seq![letter] + two_digits(i));
    r
}

/// How the wire is written.
pub fn wire_name(w: &Wire) -> (r: Vec<char>)
    ensures
        r@ == name_of(w@),
{
    match w {
        Wire::Other(name) => chars(name.as_str()),
        Wire::X(i) => numbered('x', *i),
        Wire::Y(i) => numbered('y', *i),
        Wire::Z(i) => numbered('z', *i),
    }
}

/// How the wires of a list are written.
pub open spec fn written(wires: Seq<Name>) -> Seq<Seq<char>> {
    Seq::new(wires.len(), |i: int| name_of(wires[i]))
}

/// The text lists, in order and with commas between them, the wires
/// exchanged to make the gates an adder of numbers of `n` bits; with `None`,
/// an expected gate is missing.
pub open spec fn answers2(gates: Seq<Link>, n: u64, r: Option<Seq<char>>) -> bool {
    match fixes(gates, n) {
        Some(found) => exists|sorted: Seq<Name>|
            {
                &&& #[trigger] in_wire_order(sorted)
                &&& sorted.to_multiset() == found.to_multiset()
                &&& r == Some(joined(written(sorted), ','))
            },
        None => r is None,
    }
}

/// The wires exchanged to fix the adder, in order, with commas between them.
pub fn list_fixes(gates: Vec<Gate>, input_len: u64) -> (r: Option<Vec<char>>)
    ensures
        answers2(
            links(gates@),
            input_len,
            match r {
                Some(s) => Some(s@),
                None => None,
            },
        ),
{
    match find_fixes(gates, input_len) {
        Some(permuted) => {
            let sorted = sort_wires(permuted);
            let mut all: Vec<Vec<char>> = Vec::new();
            let mut i: usize = 0;
            while i < sorted.len()
                invariant
                    i <= sorted@.len(),
                    all@.len() == i,
                    forall|k: int| 0 <= k < i ==> (#[trigger] all@[k])@ == name_of(sorted@[k]@),
                decreases sorted@.len() - i,
            {
                all.push(wire_name(&sorted[i]));
                i += 1;
            }
            assert(rows_view(all@) =~= written(names(sorted@)));
            let r = join(&all, ',');
            assert(in_wire_order(names(sorted@)));
            Some(r)
        },
        None => None,
    }
}

/// The gates of the queue, in order.
pub fn gate_list(gates: GateVec) -> (r: Vec<Gate>)
    ensures
        r@ == gates@,
{
    let mut queue = gates;
    let mut r: Vec<Gate> = Vec::new();
    while queue.len() > 0
        invariant
            gates@ == r@ + queue@,
        decreases queue@.len(),
    {
        let ghost before = queue@;
        match queue.pop_front() {
            Some(gate) => {
                let ghost done = r@;
                r.push(gate);
                assert(r@ + queue@ =~= done + before);
            },
            None => {},
        }
    }
    assert(r@ =~= r@ + queue@);
    r
}

/// What the second part answers on a text, or, with `None`, that it has no
/// answer.
pub open spec fn part2(input: Seq<char>, n: u64, r: Option<Seq<char>>) -> bool {
    match circuit_of(input) {
        Some((_, gates)) => answers2(gates, n, r),
        None => r is None,
    }
}

pub fn solve_part2(input: &str, input_len: u64) -> (r: Option<String>)
    ensures
        part2(
            input@,
            input_len,
            match r {
                Some(s) => Some(s@),
                None => None,
            },
        ),
{
    match prepare(input) {
        Some((_, gates)) => match list_fixes(gate_list(gates), input_len) {
            Some(found) => Some(text(&found)),
            None => None,
        },
        None => None,
    }
}

pub fn solve(input: String) -> (r: Option<SolutionPair>)
    ensures
        match r {
            Some(pair) => {
                &&& part1(input@) == Some(pair.0->U64_0)
                &&& pair.0 is U64
                &&& pair.1 is Str
                &&& part2(input@, 45, Some(pair.1->Str_0@))
            },
            None => part1(input@) is None || part2(input@, 45, None),
        },
{
    let one = solve_part1(input.as_str());
    let two = solve_part2(input.as_str(), 45);
    match (one, two) {
        (Some(first), Some(second)) => Some((Solution::U64(first), Solution::Str(second))),
        _ => None,
    }
}

} // verus!
