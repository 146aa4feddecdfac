use crate::etc::number::{decimal, digits, is_number, number, parse_u64};
use crate::etc::pattern::{captures, captures_of, groups_view, matches_view};
use crate::etc::solution::{Solution, SolutionPair};
use crate::etc::text::{rows_view, text};
use vstd::prelude::*;

verus! {

#[derive(Debug, PartialEq, Eq)]
pub struct Machine {
    /// register A
    pub a: u64,
    /// register B
    pub b: u64,
    /// register C
    pub c: u64,
    /// instruction pointer
    pub ip: usize,
    /// program
    pub program: Vec<u8>,
}

/// What a machine holds, but for its program.
pub struct Registers {
    pub a: u64,
    pub b: u64,
    pub c: u64,
    pub ip: int,
}

impl Machine {
    pub open spec fn registers(&self) -> Registers {
        Registers { a: self.a, b: self.b, c: self.c, ip: self.ip as int }
    }
}

/// The value of a combo operand: itself up to three, a register from four to
/// six, and none for seven and more.
pub open spec fn combo(at: Registers, arg: u8) -> Option<u64> {
    if arg <= 3 {
        Some(arg as u64)
    } else if arg == 4 {
        Some(at.a)
    } else if arg == 5 {
        Some(at.b)
    } else if arg == 6 {
        Some(at.c)
    } else {
        None
    }
}

/// A number divided by two to the power of `by`.
pub open spec fn shifted(value: u64, by: u64) -> u64 {
    if by >= 64 {
        0
    } else {
        value >> by
    }
}

/// What one instruction makes of the registers, and what it puts out. `None`
/// where the operation or its operand is none, or the operand is missing.
pub open spec fn step(program: Seq<u8>, at: Registers) -> Option<(Registers, Option<u8>)> {
    if at.ip < 0 || at.ip + 1 >= program.len() {
        None
    } else {
        let op = program[at.ip];
        let arg = program[at.ip + 1];
        let next = at.ip + 2;
        if op == 0 {
            match combo(at, arg) {
                Some(by) => Some((Registers { a: shifted(at.a, by), b: at.b, c: at.c, ip: next }, None)),
                None => None,
            }
        } else if op == 1 {
            Some((Registers { a: at.a, b: at.b ^ (arg as u64), c: at.c, ip: next }, None))
        } else if op == 2 {
            match combo(at, arg) {
                Some(value) => Some((Registers { a: at.a, b: value & 7, c: at.c, ip: next }, None)),
                None => None,
            }
        } else if op == 3 {
            if at.a > 0 {
                Some((Registers { a: at.a, b: at.b, c: at.c, ip: arg as int }, None))
            } else {
                Some((Registers { a: at.a, b: at.b, c: at.c, ip: next }, None))
            }
        } else if op == 4 {
            Some((Registers { a: at.a, b: at.b ^ at.c, c: at.c, ip: next }, None))
        } else if op == 5 {
            match combo(at, arg) {
                Some(value) => Some((Registers { a: at.a, b: at.b, c: at.c, ip: next }, Some((value & 7) as u8))),
                None => None,
            }
        } else if op == 6 {
            match combo(at, arg) {
                Some(by) => Some((Registers { a: at.a, b: shifted(at.a, by), c: at.c, ip: next }, None)),
                None => None,
            }
        } else if op == 7 {
            match combo(at, arg) {
                Some(by) => Some((Registers { a: at.a, b: at.b, c: shifted(at.a, by), ip: next }, None)),
                None => None,
            }
        } else {
            None
        }
    }
}

/// How a run ends.
#[derive(Debug, PartialEq, Eq, Clone, Copy)]
pub enum Halt {
    /// The instruction pointer is past the end of the program.
    Done,
    /// An instruction is none.
    Fault,
    /// The run took more steps than allowed.
    Tired,
}

/// What at most `fuel` steps make of the registers, what they put out, after
/// `out`, and how the run ends.
pub open spec fn run(program: Seq<u8>, at: Registers, out: Seq<u8>, fuel: nat) -> (
    Registers,
    Seq<u8>,
    Halt,
)
    decreases fuel,
{
    if at.ip >= program.len() {
        (at, out, Halt::Done)
    } else if fuel == 0 {
        (at, out, Halt::Tired)
    } else {
        match step(program, at) {
            Some((next, put)) => run(
                program,
                next,
                match put {
                    Some(value) => out.push(value),
                    None => out,
                },
                (fuel - 1) as nat,
            ),
            None => (at, out, Halt::Fault),
        }
    }
}

/// The value of a combo operand.
fn combo_value(machine: &Machine, arg: u8) -> (r: Option<u64>)
    ensures
        r == combo(machine.registers(), arg),
{
    match arg {
        0 | 1 | 2 | 3 => Some(arg as u64),
        4 => Some(machine.a),
        5 => Some(machine.b),
        6 => Some(machine.c),
        _ => None,
    }
}

/// A number divided by two to the power of `by`.
fn shift(value: u64, by: u64) -> (r: u64)
    ensures
        r == shifted(value, by),
{
    if by >= 64 {
        0
    } else {
        value >> by
    }
}

/// Run one instruction.
pub fn execute_one(machine: &mut Machine) -> (r: Option<Option<u8>>)
    requires
        old(machine).ip < old(machine).program@.len(),
    ensures
        final(machine).program@ == old(machine).program@,
        match r {
            Some(put) => step(old(machine).program@, old(machine).registers()) == Some(
                (final(machine).registers(), put),
            ),
            None => {
                &&& step(old(machine).program@, old(machine).registers()) is None
                &&& final(machine).registers() == old(machine).registers()
            },
        },
{
    let n = machine.program.len();
    if n - machine.ip < 2 {
        return None;
    }
    let op = machine.program[machine.ip];
    let arg = machine.program[machine.ip + 1];
    let next = machine.ip + 2;
    if op == 0 {
        match combo_value(machine, arg) {
            Some(by) => {
                machine.a = shift(machine.a, by);
                machine.ip = next;
                Some(None)
            },
            None => None,
        }
    } else if op == 1 {
        machine.b = machine.b ^ (arg as u64);
        machine.ip = next;
        Some(None)
    } else if op == 2 {
        match combo_value(machine, arg) {
            Some(value) => {
                machine.b = value & 7;
                machine.ip = next;
                Some(None)
            },
            None => None,
        }
    } else if op == 3 {
        if machine.a > 0 {
            machine.ip = arg as usize;
        } else {
            machine.ip = next;
        }
        Some(None)
    } else if op == 4 {
        machine.b = machine.b ^ machine.c;
        machine.ip = next;
        Some(None)
    } else if op == 5 {
        match combo_value(machine, arg) {
            Some(value) => {
                machine.ip = next;
                let low = value & 7;
                assert(low <= 7) by (bit_vector)
                    requires
                        low == value & 7,
                ;
                Some(Some(low as u8))
            },
            None => None,
        }
    } else if op == 6 {
        match combo_value(machine, arg) {
            Some(by) => {
                machine.b = shift(machine.a, by);
                machine.ip = next;
                Some(None)
            },
            None => None,
        }
    } else if op == 7 {
        match combo_value(machine, arg) {
            Some(by) => {
                machine.c = shift(machine.a, by);
                machine.ip = next;
                Some(None)
            },
            None => None,
        }
    } else {
        None
    }
}

/// Run the machine for at most `fuel` instructions: what it puts out, and how
/// the run ends. The machine is left as the run leaves it.
pub fn execute(machine: &mut Machine, fuel: u64) -> (r: (Vec<u8>, Halt))
    ensures
        final(machine).program@ == old(machine).program@,
        run(old(machine).program@, old(machine).registers(), Seq::empty(), fuel as nat) == (
            final(machine).registers(),
            r.0@,
            r.1,
        ),
{
    let mut out: Vec<u8> = Vec::new();
    let mut left = fuel;
    let ghost program = machine.program@;
    let ghost start = machine.registers();
    loop
        invariant
            machine.program@ == program,
            program == old(machine).program@,
            start == old(machine).registers(),
            run(program, start, Seq::empty(), fuel as nat) == run(
                program,
                machine.registers(),
                out@,
                left as nat,
            ),
        decreases left,
    {
        if machine.ip >= machine.program.len() {
            return (out, Halt::Done);
        }
        if left == 0 {
            return (out, Halt::Tired);
        }
        match execute_one(machine) {
            Some(put) => {
                if let Some(value) = put {
                    out.push(value);
                }
            },
            None => {
                return (out, Halt::Fault);
            },
        }
        left -= 1;
    }
}

/// The most instructions that a run may take before it is given up.
pub const STEP_LIMIT: u64 = 1_000_000;

/// The number that the whole of one match writes.
pub open spec fn value_of(groups: Seq<Option<Seq<char>>>) -> Option<u64> {
    if groups.len() > 0 {
        match groups[0] {
            Some(text) => if is_number(text) && number(text) <= u64::MAX {
                Some(number(text) as u64)
            } else {
                None
            },
            None => None,
        }
    } else {
        None
    }
}

/// The numbers that the matches write, where each of them writes one.
pub open spec fn values_of(found: Seq<Seq<Option<Seq<char>>>>) -> Option<Seq<u64>> {
    if forall|i: int| 0 <= i < found.len() ==> value_of(#[trigger] found[i]) is Some {
        Some(Seq::new(found.len(), |i: int| value_of(found[i])->0))
    } else {
        None
    }
}

/// The numbers fill a machine: three registers, then the program, each of its
/// numbers a byte.
pub open spec fn loads(values: Seq<u64>, machine: Machine) -> bool {
    &&& values.len() >= 3
    &&& machine.a == values[0]
    &&& machine.b == values[1]
    &&& machine.c == values[2]
    &&& machine.ip == 0
    &&& machine.program@.len() == values.len() - 3
    &&& forall|i: int| 0 <= i < values.len() - 3 ==> #[trigger] machine.program@[i] == values[i + 3]
}

/// The numbers can fill a machine.
pub open spec fn loadable(values: Seq<u64>) -> bool {
    values.len() >= 3 && forall|i: int| 3 <= i < values.len() ==> #[trigger] values[i] <= 255
}

/// The text writes the given machine, or, with `None`, no machine.
pub open spec fn parses(input: Seq<char>, r: Option<Machine>) -> bool {
    match captures_of("[0-9]+"@, input) {
        Some(found) => match values_of(found) {
            Some(values) => match r {
                Some(machine) => loads(values, machine),
                None => !loadable(values),
            },
            None => r is None,
        },
        None => r is None,
    }
}

/// The numbers that the matches write, or `None` where one of them writes none
/// that fits.
pub fn values(found: &Vec<Vec<Option<Vec<char>>>>) -> (r: Option<Vec<u64>>)
    ensures
        match r {
            Some(all) => values_of(matches_view(found@)) == Some(all@),
            None => values_of(matches_view(found@)) is None,
        },
{
    let ghost views = matches_view(found@);
    let mut all: Vec<u64> = Vec::new();
    let mut i: usize = 0;
    while i < found.len()
        invariant
            i <= found@.len(),
            views == matches_view(found@),
            all@.len() == i,
            forall|k: int| 0 <= k < i ==> value_of(#[trigger] views[k]) == Some(all@[k]),
        decreases found@.len() - i,
    {
        let groups = &found[i];
        let ghost view = groups_view(*groups);
        assert(views[i as int] == view);
        if groups.len() == 0 {
            return None;
        }
        assert(view[0] == match groups@[0] {
            Some(group) => Some(group@),
            None => None,
        });
        match &groups[0] {
            Some(text) => match parse_u64(text) {
                Some(value) => {
                    all.push(value);
                },
                None => {
                    return None;
                },
            },
            None => {
                return None;
            },
        }
        i += 1;
    }
    assert(all@ =~= Seq::new(views.len(), |i: int| value_of(views[i])->0));
    Some(all)
}

/// The machine that the numbers fill, or `None` where they fill none.
pub fn load(values: &Vec<u64>) -> (r: Option<Machine>)
    ensures
        match r {
            Some(machine) => loads(values@, machine),
            None => !loadable(values@),
        },
{
    if values.len() < 3 {
        return None;
    }
    let mut program: Vec<u8> = Vec::new();
    let mut i: usize = 3;
    while i < values.len()
        invariant
            3 <= i <= values@.len(),
            program@.len() == i - 3,
            forall|k: int| 0 <= k < i - 3 ==> #[trigger] program@[k] == values@[k + 3],
        decreases values@.len() - i,
    {
        if values[i] > 255 {
            return None;
        }
        program.push(values[i] as u8);
        i += 1;
    }
    Some(Machine { a: values[0], b: values[1], c: values[2], ip: 0, program })
}

/// Read a machine: the numbers of the text are its three registers and then
/// its program.
pub fn prepare(input: &str) -> (r: Option<Machine>)
    ensures
        parses(input@, r),
{
    match captures("[0-9]+", input) {
        Some(found) => match values(&found) {
            Some(all) => load(&all),
            None => None,
        },
        None => None,
    }
}

/// The numbers in base ten, with a comma between one and the next.
pub open spec fn listed(out: Seq<u8>) -> Seq<char>
    decreases out.len(),
{
    if out.len() == 0 {
        Seq::empty()
    } else if out.len() == 1 {
        digits(out[0] as nat)
    } else {
        listed(out.drop_last()) + seq![','] + digits(out.last() as nat)
    }
}

/// Write the numbers in base ten, with a comma between one and the next.
pub fn list(out: &Vec<u8>) -> (r: Vec<char>)
    ensures
        r@ == listed(out@),
{
    let mut r: Vec<char> = Vec::new();
    let mut i: usize = 0;
    while i < out.len()
        invariant
            i <= out@.len(),
            r@ == listed(out@.take(i as int)),
        decreases out@.len() - i,
    {
        let ghost before = r@;
        if i > 0 {
            r.push(',');
        }
        let mut number = decimal(out[i] as u64);
        r.append(&mut number);
        proof {
            let now = out@.take(i + 1);
            assert(now.drop_last() == out@.take(i as int));
            assert(now.last() == out@[i as int]);
            if i > 0 {
                assert(r@ == before + seq![','] + digits(out@[i as int] as nat));
            } else {
                assert(r@ == digits(out@[i as int] as nat));
            }
        }
        i += 1;
    }
    assert(out@.take(out@.len() as int) == out@);
    r
}

/// What the machine puts out when it runs to the end of its program within the
/// step limit, and `None` where it does not.
pub open spec fn output_of(machine: Machine) -> Option<Seq<u8>> {
    let end = run(machine.program@, machine.registers(), Seq::empty(), STEP_LIMIT as nat);
    if end.2 is Done {
        Some(end.1)
    } else {
        None
    }
}

/// What the first part answers on a text, or, with `None`, that it has no
/// answer: the text writes no machine, or the run does not end.
pub open spec fn answers1(input: Seq<char>, r: Option<Seq<char>>) -> bool {
    exists|machine: Option<Machine>| #[trigger]
        parses(input, machine) && r == match machine {
            Some(m) => match output_of(m) {
                Some(out) => Some(listed(out)),
                None => None,
            },
            None => None,
        }
}

pub fn solve_part1(input: &str) -> (r: Option<String>)
    ensures
        answers1(
            input@,
            match r {
                Some(s) => Some(s@),
                None => None,
            },
        ),
{
    let loaded = prepare(input);
    let ghost first = loaded;
    match loaded {
        Some(mut machine) => {
            let (out, halt) = execute(&mut machine, STEP_LIMIT);
            match halt {
                Halt::Done => Some(text(&list(&out))),
                _ => None,
            }
        },
        None => None,
    }
}

/// The first number that the program puts out when it starts with `a` in
/// register A, the other registers as the machine has them, and runs to its
/// end within the step limit; `None` where it does not, or puts nothing out.
pub open spec fn first_output(machine: Machine, a: u64) -> Option<u8> {
    let end = run(
        machine.program@,
        Registers { a, b: machine.b, c: machine.c, ip: 0 },
        Seq::empty(),
        STEP_LIMIT as nat,
    );
    if end.2 is Done && end.1.len() > 0 {
        Some(end.1[0])
    } else {
        None
    }
}

/// The patterns under `n` after which the machine first puts out `digit`, in
/// rising order.
pub open spec fn patterns_of(firsts: Seq<u8>, digit: u8, n: nat) -> Seq<u16>
    decreases n,
{
    if n == 0 || n > firsts.len() || n > 0x1_0000 {
        Seq::empty()
    } else if firsts[n - 1] == digit {
        patterns_of(firsts, digit, (n - 1) as nat).push((n - 1) as u16)
    } else {
        patterns_of(firsts, digit, (n - 1) as nat)
    }
}

/// For each of the eight digits, the patterns after which the machine first
/// puts it out.
pub open spec fn table_of(firsts: Seq<u8>) -> Seq<Seq<u16>> {
    Seq::new(8, |d: int| patterns_of(firsts, d as u8, firsts.len()))
}

/// The lesser of two answers, where `None` is no answer.
pub open spec fn better(best: Option<u64>, found: Option<u64>) -> Option<u64> {
    match (best, found) {
        (Some(b), Some(f)) => if b > f {
            found
        } else {
            best
        },
        (None, _) => found,
        (_, None) => best,
    }
}

/// A pattern's low three bits put before an answer for what follows.
pub open spec fn extended(rest: Option<u64>, pattern: u16) -> Option<u64> {
    match rest {
        Some(value) => Some(((value << 3) + ((pattern & 7) as u64)) as u64),
        None => None,
    }
}

/// A pattern agrees with the seven bits that the pattern before it leaves.
pub open spec fn agrees(pattern: u16, low: Option<u16>) -> bool {
    match low {
        Some(bits) => pattern & 0o177 == bits,
        None => true,
    }
}

/// The least register value, read three bits at a time from overlapping
/// patterns of ten, whose patterns put out the expected digits one after the
/// other; `low` holds the seven bits that the pattern before left.
pub open spec fn search(table: Seq<Seq<u16>>, expected: Seq<u8>, low: Option<u16>) -> Option<u64>
    decreases expected.len(), 1nat, 0nat,
{
    if expected.len() == 0 {
        match low {
            Some(bits) => Some(bits as u64),
            None => None,
        }
    } else if expected[0] < table.len() {
        search_among(table, expected, low, table[expected[0] as int].len())
    } else {
        None
    }
}

/// The same among the first `n` patterns of the first expected digit.
pub open spec fn search_among(
    table: Seq<Seq<u16>>,
    expected: Seq<u8>,
    low: Option<u16>,
    n: nat,
) -> Option<u64>
    decreases expected.len(), 0nat, n,
{
    if n == 0 || expected.len() == 0 || expected[0] >= table.len() || n > table[expected[0] as int].len() {
        None
    } else {
        let pattern = table[expected[0] as int][n - 1];
        let before = search_among(table, expected, low, (n - 1) as nat);
        if agrees(pattern, low) {
            better(
                before,
                extended(search(table, expected.drop_first(), Some((pattern >> 3) & 0o177)), pattern),
            )
        } else {
            before
        }
    }
}

fn dfs(table: &Vec<Vec<u16>>, expected: &Vec<u8>, from: usize, low: Option<u16>) -> (r: Option<u64>)
    requires
        from <= expected@.len(),
    ensures
        r == search(rows_view(table@), expected@.skip(from as int), low),
    decreases expected@.len() - from, 1nat, 0nat,
{
    let ghost rows = rows_view(table@);
    let ghost rest = expected@.skip(from as int);
    if from == expected.len() {
        return match low {
            Some(bits) => Some(bits as u64),
            None => None,
        };
    }
    let digit = expected[from];
    assert(rest[0] == digit);
    if digit as usize >= table.len() {
        return None;
    }
    let patterns = &table[digit as usize];
    assert(rows[digit as int] == patterns@);
    let mut best: Option<u64> = None;
    let mut i: usize = 0;
    while i < patterns.len()
        invariant
            i <= patterns@.len(),
            from < expected@.len() <= usize::MAX,
            rows == rows_view(table@),
            rest == expected@.skip(from as int),
            rest.len() > 0,
            rest[0] == digit,
            digit < rows.len(),
            rows[digit as int] == patterns@,
            best == search_among(rows, rest, low, i as nat),
        decreases patterns@.len() - i,
    {
        let pattern = patterns[i];
        let fit = match low {
            Some(bits) => (pattern & 0o177) == bits,
            None => true,
        };
        if fit {
            assert(rest.drop_first() == expected@.skip(from + 1));
            let found = dfs(table, expected, from + 1, Some((pattern >> 3) & 0o177));
            if let Some(value) = found {
                let shifted: u64 = value << 3;
                let low_bits: u64 = (pattern & 7) as u64;
                assert(shifted <= 0xFFFF_FFFF_FFFF_FFF8) by (bit_vector)
                    requires
                        shifted == value << 3,
                ;
                assert(pattern & 7 <= 7) by (bit_vector);
                let solution = shifted + low_bits;
                let replace = match best {
                    Some(b) => b > solution,
                    None => true,
                };
                if replace {
                    best = Some(solution);
                }
            }
        }
        i += 1;
    }
    best
}

/// The first number that the machine puts out for each value of register A
/// under 1024, or `None` where one of the runs does not end or puts nothing
/// out.
pub fn first_outputs(machine: &mut Machine) -> (r: Option<Vec<u8>>)
    ensures
        final(machine).program@ == old(machine).program@,
        final(machine).b == old(machine).b,
        final(machine).c == old(machine).c,
        match r {
            Some(firsts) => {
                &&& firsts@.len() == 1024
                &&& forall|a: int|
                    0 <= a < 1024 ==> #[trigger] first_output(*old(machine), a as u64) == Some(
                        firsts@[a],
                    )
            },
            None => exists|a: int| 0 <= a < 1024 && #[trigger] first_output(*old(machine), a as u64) is None,
        },
{
    let b = machine.b;
    let c = machine.c;
    let mut firsts: Vec<u8> = Vec::new();
    let mut a: u64 = 0;
    while a < 1024
        invariant
            a <= 1024,
            machine.program@ == old(machine).program@,
            machine.b == b,
            machine.c == c,
            b == old(machine).b,
            c == old(machine).c,
            firsts@.len() == a,
            forall|k: int|
                0 <= k < a ==> #[trigger] first_output(*old(machine), k as u64) == Some(firsts@[k]),
        decreases 1024 - a,
    {
        machine.a = a;
        machine.ip = 0;
        let (out, halt) = execute(machine, STEP_LIMIT);
        machine.b = b;
        machine.c = c;
        match halt {
            Halt::Done => {
                if out.len() == 0 {
                    assert(first_output(*old(machine), a as u64) is None);
                    return None;
                }
                firsts.push(out[0]);
            },
            _ => {
                assert(first_output(*old(machine), a as u64) is None);
                return None;
            },
        }
        a += 1;
    }
    Some(firsts)
}

/// The patterns after which the machine first puts out `digit`, in rising
/// order.
fn patterns(firsts: &Vec<u8>, digit: u8) -> (r: Vec<u16>)
    requires
        firsts@.len() <= 0x1_0000,
    ensures
        r@ == patterns_of(firsts@, digit, firsts@.len()),
{
    let mut r: Vec<u16> = Vec::new();
    let mut n: usize = 0;
    while n < firsts.len()
        invariant
            n <= firsts@.len() <= 0x1_0000,
            r@ == patterns_of(firsts@, digit, n as nat),
        decreases firsts@.len() - n,
    {
        if firsts[n] == digit {
            r.push(n as u16);
        }
        n += 1;
    }
    r
}

/// For each of the eight digits, the patterns after which the machine first
/// puts it out.
pub fn table(firsts: &Vec<u8>) -> (r: Vec<Vec<u16>>)
    requires
        firsts@.len() <= 0x1_0000,
    ensures
        rows_view(r@) == table_of(firsts@),
{
    let mut r: Vec<Vec<u16>> = Vec::new();
    let mut d: u8 = 0;
    while d < 8
        invariant
            d <= 8,
            firsts@.len() <= 0x1_0000,
            r@.len() == d,
            forall|k: int| 0 <= k < d ==> (#[trigger] r@[k])@ == patterns_of(firsts@, k as u8, firsts@.len()),
        decreases 8 - d,
    {
        r.push(patterns(firsts, d));
        d += 1;
    }
    assert(rows_view(r@) =~= table_of(firsts@));
    r
}

/// The machine puts out its own program when it starts with `a` in register A.
pub open spec fn copies_itself(machine: Machine, a: u64) -> bool {
    let end = run(
        machine.program@,
        Registers { a, b: machine.b, c: machine.c, ip: 0 },
        Seq::empty(),
        STEP_LIMIT as nat,
    );
    end.2 is Done && end.1 == machine.program@
}

/// The value that the search finds for the machine, where each pattern has a
/// first output.
pub open spec fn found_for(machine: Machine, firsts: Seq<u8>) -> Option<u64> {
    search(table_of(firsts), machine.program@, None)
}

/// Each of the 1024 patterns has the first output that the list gives.
pub open spec fn first_outputs_are(machine: Machine, firsts: Seq<u8>) -> bool {
    &&& firsts.len() == 1024
    &&& forall|k: int| 0 <= k < 1024 ==> #[trigger] first_output(machine, k as u64) == Some(firsts[k])
}

/// `r` is the value for register A that the search finds for the machine,
/// with which the machine puts out its own program; or it is `None`, and a
/// pattern has no first output, the search finds no value, or the machine
/// does not put out its own program with the value found.
pub open spec fn finds_copy(machine: Machine, r: Option<u64>) -> bool {
    match r {
        Some(a) => {
            &&& copies_itself(machine, a)
            &&& exists|firsts: Seq<u8>|
                first_outputs_are(machine, firsts) && #[trigger] found_for(machine, firsts) == Some(a)
        },
        None => {
            ||| exists|k: int| 0 <= k < 1024 && #[trigger] first_output(machine, k as u64) is None
            ||| exists|firsts: Seq<u8>|
                first_outputs_are(machine, firsts) && match #[trigger] found_for(machine, firsts) {
                    Some(a) => !copies_itself(machine, a),
                    None => true,
                }
        },
    }
}

/// The least value for register A that the search finds and with which the
/// machine puts out its own program, or `None`.
pub fn find_copy(machine: &mut Machine) -> (r: Option<u64>)
    ensures
        final(machine).program@ == old(machine).program@,
        finds_copy(*old(machine), r),
{
    let b = machine.b;
    let c = machine.c;
    match first_outputs(machine) {
        Some(firsts) => {
            let all = table(&firsts);
            let expected = machine.program.clone();
            assert(expected@ == machine.program@);
            assert(expected@.skip(0) == expected@);
            match dfs(&all, &expected, 0, None) {
                Some(a) => {
                    assert(first_outputs_are(*old(machine), firsts@));
                    assert(found_for(*old(machine), firsts@) == Some(a));
                    machine.a = a;
                    machine.ip = 0;
                    let (out, halt) = execute(machine, STEP_LIMIT);
                    match halt {
                        Halt::Done => {
                            if same_bytes(&out, &expected) {
                                Some(a)
                            } else {
                                None
                            }
                        },
                        _ => None,
                    }
                },
                None => {
                    assert(first_outputs_are(*old(machine), firsts@));
                    assert(found_for(*old(machine), firsts@) is None);
                    None
                },
            }
        },
        None => None,
    }
}

/// Whether two lists hold the same bytes.
fn same_bytes(a: &Vec<u8>, b: &Vec<u8>) -> (r: bool)
    ensures
        r == (a@ == b@),
{
    if a.len() != b.len() {
        return false;
    }
    let mut i: usize = 0;
    while i < a.len()
        invariant
            i <= a@.len(),
            a@.len() == b@.len(),
            forall|k: int| 0 <= k < i ==> a@[k] == b@[k],
        decreases a@.len() - i,
    {
        if a[i] != b[i] {
            return false;
        }
        i += 1;
    }
    assert(a@ =~= b@);
    true
}

/// What the second part answers on a text: the value that the search finds
/// for the machine that the text writes, or, with `None`, that there is no
/// machine or no value.
pub open spec fn answers2(input: Seq<char>, r: Option<u64>) -> bool {
    exists|machine: Option<Machine>| #[trigger]
        parses(input, machine) && match machine {
            Some(m) => finds_copy(m, r),
            None => r is None,
        }
}

/// The least value for register A with which the machine of the text puts out
/// its own program, as far as the search finds one.
pub fn solve_part2(input: &str) -> (r: Option<u64>)
    ensures
        answers2(input@, r),
{
    let loaded = prepare(input);
    match loaded {
        Some(mut machine) => {
            let ghost first = machine;
            let r = find_copy(&mut machine);
            assert(parses(input@, Some(first)));
            r
        },
        None => {
            assert(parses(input@, None::<Machine>));
            None
        },
    }
}

pub fn solve(input: String) -> (r: Option<SolutionPair>)
    ensures
        match r {
            Some(pair) => {
                &&& pair.0 is Str
                &&& answers1(input@, Some(pair.0->Str_0@))
                &&& pair.1 is U64
                &&& answers2(input@, Some(pair.1->U64_0))
            },
            None => answers1(input@, None) || answers2(input@, None),
        },
{
    let one = solve_part1(input.as_str());
    let two = solve_part2(input.as_str());
    match (one, two) {
        (Some(first), Some(second)) => Some((Solution::Str(first), Solution::U64(second))),
        _ => None,
    }
}

} // verus!
