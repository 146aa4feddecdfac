use crate::etc::number::{digit, digit_value, is_digit, is_digit_char};
use crate::etc::solution::{Solution, SolutionPair};
use crate::etc::text::{chars, is_space, is_space_char};
use vstd::prelude::*;

verus! {

#[derive(Copy, Clone, Debug, PartialEq, Eq, Structural)]
pub enum Block {
    Free,
    File(u64),
}

#[derive(Default, Debug)]
pub struct Disk(pub Vec<Block>);

impl View for Disk {
    type V = Seq<Block>;

    open spec fn view(&self) -> Seq<Block> {
        self.0@
    }
}

/// The sum, over the first `n` blocks that hold a file, of the place of the
/// block times the number of the file.
pub open spec fn checksum_of(disk: Seq<Block>, n: int) -> int
    decreases n,
{
    if n <= 0 {
        0
    } else {
        checksum_of(disk, n - 1) + match disk[n - 1] {
            Block::Free => 0,
            Block::File(file_id) => (n - 1) * file_id,
        }
    }
}

/// A checksum is not negative.
pub proof fn lemma_checksum_not_negative(disk: Seq<Block>, n: int)
    ensures
        0 <= checksum_of(disk, n),
    decreases n,
{
    if n > 0 {
        lemma_checksum_not_negative(disk, n - 1);
        match disk[n - 1] {
            Block::Free => {},
            Block::File(file_id) => {
                assert((n - 1) * file_id >= 0) by (nonlinear_arith)
                    requires
                        n - 1 >= 0,
                        file_id >= 0,
                ;
            },
        }
    }
}

/// A checksum does not go down as it goes on.
pub proof fn lemma_checksum_rises(disk: Seq<Block>, n: int, m: int)
    requires
        0 <= n <= m,
    ensures
        checksum_of(disk, n) <= checksum_of(disk, m),
    decreases m,
{
    if n < m {
        lemma_checksum_rises(disk, n, m - 1);
        match disk[m - 1] {
            Block::Free => {},
            Block::File(file_id) => {
                assert((m - 1) * file_id >= 0) by (nonlinear_arith)
                    requires
                        m - 1 >= 0,
                        file_id >= 0,
                ;
            },
        }
    }
}

impl Disk {
    /// The sum, over the blocks that hold a file, of the place of the block times
    /// the number of the file; `None` where it does not fit 64 bits.
    pub fn checksum(&self) -> (r: Option<u64>)
        ensures
            match r {
                Some(sum) => sum == checksum_of(self@, self@.len() as int),
                None => checksum_of(self@, self@.len() as int) > u64::MAX,
            },
    {
        let mut h: u64 = 0;
        let mut pos: usize = 0;
        while pos < self.0.len()
            invariant
                pos <= self@.len(),
                h == checksum_of(self@, pos as int),
            decreases self@.len() - pos,
        {
            let more = match self.0[pos] {
                Block::Free => Some(h),
                Block::File(file_id) => match (pos as u64).checked_mul(file_id) {
                    Some(product) => h.checked_add(product),
                    None => None,
                },
            };
            h = match more {
                Some(sum) => sum,
                None => {
                    proof {
                        assert(checksum_of(self@, pos + 1) > u64::MAX);
                        lemma_checksum_rises(self@, pos + 1, self@.len() as int);
                    }
                    return None;
                },
            };
            pos += 1;
        }
        Some(h)
    }
}

/// The text without the spaces at its end.
pub open spec fn trimmed(input: Seq<char>) -> Seq<char>
    decreases input.len(),
{
    if input.len() > 0 && is_space(input.last()) {
        trimmed(input.drop_last())
    } else {
        input
    }
}

/// The text is made of digits, but for spaces at its end.
pub open spec fn well_formed(input: Seq<char>) -> bool {
    forall|i: int| 0 <= i < trimmed(input).len() ==> is_digit(#[trigger] trimmed(input)[i])
}

/// The blocks that the first `n` digits write: by turns the blocks of a file,
/// whose number is one more than that of the file before, and free blocks.
pub open spec fn blocks_of(digits: Seq<char>, n: int) -> Seq<Block>
    decreases n,
{
    if n <= 0 {
        Seq::empty()
    } else {
        blocks_of(digits, n - 1) + Seq::new(
            digit(digits[n - 1]),
            |k: int|
                if (n - 1) % 2 == 0 {
                    Block::File(((n - 1) / 2) as u64)
                } else {
                    Block::Free
                },
        )
    }
}

/// Read the disk, or `None` where the text is not well formed.
pub fn parse(input: &str) -> (r: Option<Disk>)
    ensures
        match r {
            Some(disk) => well_formed(input@) && disk@ == blocks_of(
                trimmed(input@),
                trimmed(input@).len() as int,
            ),
            None => !well_formed(input@),
        },
{
    let content = chars(input);
    let mut end = content.len();
    assert(content@.take(end as int) =~= content@);
    while end > 0 && is_space_char(content[end - 1])
        invariant
            end <= content@.len(),
            trimmed(content@) == trimmed(content@.take(end as int)),
        decreases end,
    {
        proof {
            assert(content@.take(end as int).drop_last() =~= content@.take(end - 1));
        }
        end -= 1;
    }
    proof {
        if end == content@.len() {
            assert(content@.take(end as int) =~= content@);
        }
    }
    let ghost digits = trimmed(input@);
    assert(digits == content@.take(end as int));
    let mut disk: Vec<Block> = Vec::new();
    let mut i: usize = 0;
    assert(disk@ =~= blocks_of(digits, 0));
    while i < end
        invariant
            i <= end <= content@.len(),
            digits == content@.take(end as int),
            digits == trimmed(input@),
            forall|k: int| 0 <= k < i ==> is_digit(#[trigger] digits[k]),
            disk@ == blocks_of(digits, i as int),
        decreases end - i,
    {
        let c = content[i];
        assert(digits[i as int] == c);
        if !is_digit_char(c) {
            return None;
        }
        let num = digit_value(c);
        let block = if i % 2 == 0 {
            Block::File((i / 2) as u64)
        } else {
            Block::Free
        };
        let ghost before = disk@;
        let mut k: u8 = 0;
        while k < num
            invariant
                k <= num,
                disk@ == before + Seq::new(k as nat, |j: int| block),
            decreases num - k,
        {
            disk.push(block);
            assert(disk@ =~= before + Seq::new((k + 1) as nat, |j: int| block));
            k += 1;
        }
        proof {
            assert(disk@ =~= blocks_of(digits, i + 1));
        }
        i += 1;
    }
    Some(Disk(disk))
}

/// Read the disk.
pub fn prepare(input: &str) -> (r: Disk)
    requires
        well_formed(input@),
    ensures
        r@ == blocks_of(trimmed(input@), trimmed(input@).len() as int),
{
    match parse(input) {
        Some(disk) => disk,
        None => Disk(Vec::new()),
    }
}

/// No free block stands before a block of a file.
pub open spec fn packed(disk: Seq<Block>) -> bool {
    forall|i: int, j: int|
        0 <= i < j < disk.len() && #[trigger] disk[i] == Block::Free ==> #[trigger] disk[j]
            == Block::Free
}

/// The disk once the blocks between `left` and `right`, both counted, are
/// packed: as long as a free block stands before a block of a file, the last
/// block of a file goes to the first free block.
pub open spec fn squeezed(disk: Seq<Block>, left: int, right: int) -> Seq<Block>
    decreases right - left,
{
    if 0 <= left < right < disk.len() {
        if disk[left] != Block::Free {
            squeezed(disk, left + 1, right)
        } else if disk[right] == Block::Free {
            squeezed(disk, left, right - 1)
        } else {
            squeezed(disk.update(left, disk[right]).update(right, Block::Free), left + 1, right)
        }
    } else {
        disk
    }
}

/// The disk with the last blocks of files moved, one by one, to the first free
/// blocks.
pub open spec fn defragmented(disk: Seq<Block>) -> Seq<Block> {
    squeezed(disk, 0, disk.len() - 1)
}

/// Move the blocks of files from the end of the disk to the free blocks at its
/// start, until no free block stands before a block of a file.
pub fn defragment(disk: &mut Disk)
    ensures
        final(disk)@ == defragmented(old(disk)@),
        final(disk)@.len() == old(disk)@.len(),
        final(disk)@.to_multiset() == old(disk)@.to_multiset(),
        packed(final(disk)@),
{
    if disk.0.len() == 0 {
        return ;
    }
    let mut left: usize = 0;
    let mut right: usize = disk.0.len() - 1;
    while left < right
        invariant
            left <= right < disk@.len(),
            disk@.len() == old(disk)@.len(),
            disk@.to_multiset() == old(disk)@.to_multiset(),
            defragmented(old(disk)@) == squeezed(disk@, left as int, right as int),
            forall|i: int| 0 <= i < left ==> #[trigger] disk@[i] != Block::Free,
            forall|j: int| right < j < disk@.len() ==> #[trigger] disk@[j] == Block::Free,
        decreases right - left,
    {
        let is_file = match disk.0[left] {
            Block::File(_) => true,
            Block::Free => false,
        };
        let is_free = match disk.0[right] {
            Block::Free => true,
            Block::File(_) => false,
        };
        if is_file {
            left += 1;
        } else if is_free {
            right -= 1;
        } else {
            let ghost before = disk@;
            let moved = disk.0[right];
            disk.0[left] = moved;
            disk.0[right] = Block::Free;
            proof {
                broadcast use {
                    vstd::multiset::group_multiset_axioms,
                    vstd::multiset::group_multiset_properties,
                };

                assert(before.contains(Block::Free));
                vstd::seq_lib::to_multiset_contains(before, Block::Free);
                assert(before.contains(moved));
                vstd::seq_lib::to_multiset_contains(before, moved);

                let middle = before.update(left as int, moved);
                vstd::seq_lib::to_multiset_update(before, left as int, moved);
                vstd::seq_lib::to_multiset_update(middle, right as int, Block::Free);
                assert(disk@ == middle.update(right as int, Block::Free));
                assert(before[left as int] == Block::Free);
                assert(middle[right as int] == moved);
                assert(disk@.to_multiset() =~= before.to_multiset());
            }
            left += 1;
        }
    }
}

/// The checksum of the disk that the text writes, once it is defragmented.
pub open spec fn part1(input: Seq<char>) -> int {
    let disk = defragmented(blocks_of(trimmed(input), trimmed(input).len() as int));
    checksum_of(disk, disk.len() as int)
}

pub fn solve_part1(input: &str) -> (r: Option<u64>)
    requires
        well_formed(input@),
    ensures
        match r {
            Some(sum) => sum == part1(input@),
            None => part1(input@) > u64::MAX,
        },
{
    let mut disk = prepare(input);
    defragment(&mut disk);
    disk.checksum()
}


/// The first place at or after `from` that is free, or the length of the disk.
pub open spec fn next_free(disk: Seq<Block>, from: int) -> int
    decreases disk.len() - from,
{
    if 0 <= from < disk.len() && disk[from] != Block::Free {
        next_free(disk, from + 1)
    } else {
        from
    }
}

/// Find position of next free block, or the length of the disk where there is
/// none.
pub fn find_next_free(disk: &Disk, from: usize) -> (r: usize)
    requires
        from <= disk@.len(),
    ensures
        r == next_free(disk@, from as int),
        from <= r <= disk@.len(),
        r < disk@.len() ==> disk@[r as int] == Block::Free,
{
    let mut at = from;
    while at < disk.0.len() && disk.0[at] != Block::Free
        invariant
            from <= at <= disk@.len(),
            next_free(disk@, from as int) == next_free(disk@, at as int),
        decreases disk@.len() - at,
    {
        at += 1;
    }
    at
}

/// The blocks from `at` on, `len` of them, are free, and stand before `end`.
pub open spec fn free_span(disk: Seq<Block>, at: int, len: int, end: int) -> bool {
    &&& 0 <= at
    &&& at + len <= end
    &&& end <= disk.len()
    &&& forall|k: int| at <= k < at + len ==> #[trigger] disk[k] == Block::Free
}

/// Find position of next free span of length at least `min_len`.
pub fn find_next_free_span(disk: &Disk, start: usize, end: usize, min_len: usize) -> (r: Option<
    usize,
>)
    requires
        end <= disk@.len(),
        min_len >= 1,
    ensures
        match r {
            Some(at) => start <= at && free_span(disk@, at as int, min_len as int, end as int)
                && forall|p: int|
                start <= p < at ==> !#[trigger] free_span(disk@, p, min_len as int, end as int),
            None => forall|p: int|
                start <= p ==> !#[trigger] free_span(disk@, p, min_len as int, end as int),
        },
{
    if start > end || min_len > end - start {
        return None;
    }
    let mut from = start;
    while from <= end - min_len
        invariant
            start <= from,
            min_len <= end <= disk@.len(),
            min_len >= 1,
            forall|p: int|
                start <= p < from ==> !#[trigger] free_span(disk@, p, min_len as int, end as int),
        decreases end - from,
    {
        let mut k: usize = 0;
        while k < min_len && disk.0[from + k] == Block::Free
            invariant
                k <= min_len,
                from + min_len <= end <= disk@.len(),
                forall|j: int| from <= j < from + k ==> #[trigger] disk@[j] == Block::Free,
            decreases min_len - k,
        {
            k += 1;
        }
        if k == min_len {
            return Some(from);
        }
        proof {
            // the block at `from + k` is not free: no span over it is free
            assert forall|p: int| from <= p < from + k + 1 implies !#[trigger] free_span(
                disk@,
                p,
                min_len as int,
                end as int,
            ) by {
                if free_span(disk@, p, min_len as int, end as int) {
                    assert(disk@[from + k] == Block::Free);
                }
            }
        }
        from = from + k + 1;
    }
    None
}

/// The number of blocks, from `at` on, that hold the file.
pub open spec fn file_len(disk: Seq<Block>, file_id: u64, at: int) -> int
    decreases disk.len() - at,
{
    if 0 <= at < disk.len() && disk[at] == Block::File(file_id) {
        1 + file_len(disk, file_id, at + 1)
    } else {
        0
    }
}

/// A file has no negative number of blocks.
pub proof fn lemma_file_len_not_negative(disk: Seq<Block>, file_id: u64, at: int)
    ensures
        file_len(disk, file_id, at) >= 0,
    decreases disk.len() - at,
{
    if 0 <= at < disk.len() && disk[at] == Block::File(file_id) {
        lemma_file_len_not_negative(disk, file_id, at + 1);
    }
}

/// The number of blocks of the file that starts at `file`.
pub open spec fn run(disk: Seq<Block>, file: int) -> int {
    match disk[file] {
        Block::File(file_id) => file_len(disk, file_id, file),
        Block::Free => 0,
    }
}

/// A file starts at `file`, after `free`, and the blocks from `free` on that
/// it is to take, as far as they stand before the file, are free.
pub open spec fn can_move(disk: Seq<Block>, free: int, file: int) -> bool {
    &&& 0 <= free < file < disk.len()
    &&& disk[file] != Block::Free
    &&& forall|k: int| free <= k < file && k < free + run(disk, file) ==> #[trigger] disk[k] == Block::Free
}

/// The disk with the file that starts at `file` moved to the blocks from
/// `free` on: these hold the file, and what is left of its old blocks is free.
pub open spec fn moved_file(disk: Seq<Block>, free: int, file: int) -> Seq<Block> {
    Seq::new(
        disk.len(),
        |p: int|
            if free <= p < free + run(disk, file) {
                disk[file]
            } else if file <= p < file + run(disk, file) {
                Block::Free
            } else {
                disk[p]
            },
    )
}

/// Move file blocks to free span: the blocks of the file that starts at
/// `file_start` go to the blocks from `free_start` on, one by one.
pub fn move_file(disk: &mut Disk, free_start: usize, file_start: usize)
    requires
        can_move(old(disk)@, free_start as int, file_start as int),
    ensures
        final(disk)@ == moved_file(old(disk)@, free_start as int, file_start as int),
        final(disk)@.to_multiset() == old(disk)@.to_multiset(),
{
    let file_id = match disk.0[file_start] {
        Block::File(file_id) => file_id,
        Block::Free => {
            return ;
        },
    };
    let n = disk.0.len();
    let block = Block::File(file_id);
    let mut moved: usize = 0;
    while file_start + moved < n && disk.0[file_start + moved] == Block::File(file_id)
        invariant
            free_start < file_start < n,
            n == disk@.len(),
            disk@.len() == old(disk)@.len(),
            old(disk)@[file_start as int] == block,
            block == Block::File(file_id),
            can_move(old(disk)@, free_start as int, file_start as int),
            moved <= n - file_start,
            file_len(old(disk)@, file_id, file_start as int) == moved + file_len(
                old(disk)@,
                file_id,
                file_start + moved,
            ),
            disk@.to_multiset() == old(disk)@.to_multiset(),
            forall|p: int|
                0 <= p < n ==> #[trigger] disk@[p] == if free_start <= p < free_start + moved {
                    block
                } else if file_start <= p < file_start + moved {
                    Block::Free
                } else {
                    old(disk)@[p]
                },
        decreases n - file_start - moved,
    {
        let ghost before = disk@;
        let free = free_start + moved;
        let file = file_start + moved;
        assert(before[file as int] == old(disk)@[file as int]);
        assert(file_len(old(disk)@, file_id, file as int) == 1 + file_len(
            old(disk)@,
            file_id,
            file + 1,
        ));
        assert(run(old(disk)@, file_start as int) == file_len(old(disk)@, file_id, file_start as int));
        proof {
            lemma_file_len_not_negative(old(disk)@, file_id, file + 1);
            if free < file_start {
                assert(old(disk)@[free as int] == Block::Free);
            }
        }
        assert(before[free as int] == Block::Free);
        disk.0[free] = block;
        disk.0[file] = Block::Free;
        proof {
            broadcast use {
                vstd::multiset::group_multiset_axioms,
                vstd::multiset::group_multiset_properties,
            };

            let middle = before.update(free as int, block);
            vstd::seq_lib::to_multiset_update(before, free as int, block);
            vstd::seq_lib::to_multiset_update(middle, file as int, Block::Free);
            assert(before.contains(Block::Free));
            vstd::seq_lib::to_multiset_contains(before, Block::Free);
            assert(before.contains(block));
            vstd::seq_lib::to_multiset_contains(before, block);
            assert(middle[file as int] == block);
            assert(disk@ == middle.update(file as int, Block::Free));
            assert(disk@.to_multiset() =~= before.to_multiset());
        }
        moved += 1;
    }
    proof {
        assert(file_len(old(disk)@, file_id, file_start + moved) == 0);
        assert(disk@ =~= moved_file(old(disk)@, free_start as int, file_start as int));
    }
}

/// The greatest number of a file among the first `n` blocks, where there is a
/// file among them.
fn last_file_id(disk: &Disk) -> (r: Option<u64>)
    ensures
        match r {
            Some(most) => disk@.contains(Block::File(most)) && forall|k: int|
                0 <= k < disk@.len() ==> match #[trigger] disk@[k] {
                    Block::File(file_id) => file_id <= most,
                    Block::Free => true,
                },
            None => forall|k: int| 0 <= k < disk@.len() ==> #[trigger] disk@[k] == Block::Free,
        },
{
    let mut most: Option<u64> = None;
    let mut i: usize = 0;
    while i < disk.0.len()
        invariant
            i <= disk@.len(),
            match most {
                Some(best) => (exists|j: int| 0 <= j < i && #[trigger] disk@[j] == Block::File(best))
                    && forall|k: int|
                    0 <= k < i ==> match #[trigger] disk@[k] {
                        Block::File(file_id) => file_id <= best,
                        Block::Free => true,
                    },
                None => forall|k: int| 0 <= k < i ==> #[trigger] disk@[k] == Block::Free,
            },
        decreases disk@.len() - i,
    {
        match disk.0[i] {
            Block::File(file_id) => {
                let better = match most {
                    Some(best) => file_id > best,
                    None => true,
                };
                if better {
                    most = Some(file_id);
                    assert(disk@[i as int] == Block::File(file_id));
                } else {
                    proof {
                        let j = choose|j: int| 0 <= j < i && #[trigger] disk@[j] == Block::File(most->0);
                        assert(disk@[j] == Block::File(most->0));
                    }
                }
            },
            Block::Free => {
                proof {
                    if most is Some {
                        let j = choose|j: int| 0 <= j < i && #[trigger] disk@[j] == Block::File(most->0);
                        assert(disk@[j] == Block::File(most->0));
                    }
                }
            },
        }
        i += 1;
    }
    proof {
        if most is Some {
            let j = choose|j: int|
                0 <= j < disk@.len() && #[trigger] disk@[j] == Block::File(most->0);
            assert(disk@[j] == Block::File(most->0));
        }
    }
    most
}

/// The first block of the run of blocks of the file that ends at `top`.
pub open spec fn run_start(disk: Seq<Block>, file_id: u64, top: int) -> int
    decreases top,
{
    if 0 < top <= disk.len() && disk[top - 1] == Block::File(file_id) {
        run_start(disk, file_id, top - 1)
    } else {
        top
    }
}

/// The first free span of `len` blocks from `start` on, before `end`, starts
/// at `at`.
pub open spec fn is_first_span(disk: Seq<Block>, start: int, end: int, len: int, at: int) -> bool {
    &&& start <= at
    &&& free_span(disk, at, len, end)
    &&& forall|p: int| start <= p < at ==> !#[trigger] free_span(disk, p, len, end)
}

/// Where the first free span of `len` blocks from `start` on, before `end`,
/// starts, if there is one.
pub open spec fn first_span(disk: Seq<Block>, start: int, end: int, len: int) -> Option<int> {
    if exists|at: int| is_first_span(disk, start, end, len, at) {
        Some(choose|at: int| is_first_span(disk, start, end, len, at))
    } else {
        None
    }
}

/// The greatest number of a file on the disk is `file_id`.
pub open spec fn is_last_id(disk: Seq<Block>, file_id: u64) -> bool {
    &&& disk.contains(Block::File(file_id))
    &&& forall|k: int|
        0 <= k < disk.len() ==> match #[trigger] disk[k] {
            Block::File(other) => other <= file_id,
            Block::Free => true,
        }
}

/// The greatest number of a file on the disk, if it holds a file.
pub open spec fn last_id(disk: Seq<Block>) -> Option<u64> {
    if exists|file_id: u64| is_last_id(disk, file_id) {
        Some(choose|file_id: u64| is_last_id(disk, file_id))
    } else {
        None
    }
}

/// What is left to do once the blocks after `right` are done, the next file
/// to move being `file_id` and the first free block `free`: where the block
/// at `right` ends that file, the file goes to the first free span before it
/// that it fits, if there is one, and the file before it is next; else the
/// block before `right` is looked at.
pub open spec fn compacting(disk: Seq<Block>, free: int, right: int, file_id: u64) -> Seq<Block>
    decreases right,
{
    if 0 <= free < right < disk.len() {
        if disk[right] == Block::File(file_id) {
            let start = run_start(disk, file_id, right);
            let span = if free <= start {
                first_span(disk, free, start, right - start + 1)
            } else {
                None
            };
            let next = match span {
                Some(at) => moved_file(disk, at, start),
                None => disk,
            };
            let next_free = match span {
                Some(_) => next_free(next, free),
                None => free,
            };
            if file_id == 0 || start <= 0 || start > right {
                next
            } else {
                compacting(next, next_free, start - 1, (file_id - 1) as u64)
            }
        } else {
            compacting(disk, free, right - 1, file_id)
        }
    } else {
        disk
    }
}

/// The disk with each file, from the last to the first, moved once to the
/// first free span before it that it fits.
pub open spec fn compacted(disk: Seq<Block>) -> Seq<Block> {
    match last_id(disk) {
        Some(file_id) => compacting(disk, next_free(disk, 0), disk.len() - 1, file_id),
        None => disk,
    }
}

/// There is at most one first free span.
pub proof fn lemma_first_span(disk: Seq<Block>, start: int, end: int, len: int, at: int)
    requires
        is_first_span(disk, start, end, len, at),
    ensures
        first_span(disk, start, end, len) == Some(at),
{
    let other = choose|other: int| is_first_span(disk, start, end, len, other);
    if other < at {
        assert(!free_span(disk, other, len, end));
    }
    if at < other {
        assert(!free_span(disk, at, len, end));
    }
}

/// There is at most one greatest number of a file.
pub proof fn lemma_last_id(disk: Seq<Block>, file_id: u64)
    requires
        is_last_id(disk, file_id),
    ensures
        last_id(disk) == Some(file_id),
{
    let other = choose|other: u64| is_last_id(disk, other);
    let i = choose|i: int| 0 <= i < disk.len() && disk[i] == Block::File(file_id);
    let j = choose|j: int| 0 <= j < disk.len() && disk[j] == Block::File(other);
    assert(disk[i] == Block::File(file_id));
    assert(disk[j] == Block::File(other));
}

/// Blocks of one file from `start` to `top`, with no block of it behind them,
/// are a file of that many blocks.
pub proof fn lemma_run(disk: Seq<Block>, file_id: u64, start: int, top: int)
    requires
        0 <= start <= top < disk.len(),
        forall|p: int| start <= p <= top ==> #[trigger] disk[p] == Block::File(file_id),
        top + 1 < disk.len() ==> disk[top + 1] != Block::File(file_id),
    ensures
        file_len(disk, file_id, start) == top - start + 1,
        run(disk, start) == top - start + 1,
    decreases top - start,
{
    if start < top {
        lemma_run(disk, file_id, start + 1, top);
    } else {
        assert(file_len(disk, file_id, start + 1) == 0);
    }
    assert(disk[start] == Block::File(file_id));
}

/// Move the files, from the one with the greatest number down, each as a whole
/// to the first span of free blocks before it that is long enough, where there
/// is one.
pub fn compact(disk: &mut Disk)
    ensures
        final(disk)@ == compacted(old(disk)@),
        final(disk)@.len() == old(disk)@.len(),
        final(disk)@.to_multiset() == old(disk)@.to_multiset(),
{
    let n = disk.0.len();
    let mut next_file_id = match last_file_id(disk) {
        Some(most) => {
            proof {
                lemma_last_id(disk@, most);
            }
            most
        },
        None => {
            proof {
                assert forall|file_id: u64| !is_last_id(disk@, file_id) by {
                    if is_last_id(disk@, file_id) {
                        let i = choose|i: int| 0 <= i < disk@.len() && disk@[i] == Block::File(file_id);
                        assert(disk@[i] == Block::Free);
                    }
                }
            }
            return ;
        },
    };
    let mut leftmost_free = find_next_free(disk, 0);
    let mut right: usize = n - 1;
    while leftmost_free < right
        invariant
            n == disk@.len(),
            disk@.len() == old(disk)@.len(),
            right < n,
            leftmost_free <= n,
            disk@.to_multiset() == old(disk)@.to_multiset(),
            compacted(old(disk)@) == compacting(disk@, leftmost_free as int, right as int, next_file_id),
            right + 1 < n ==> disk@[right + 1] != Block::File(next_file_id),
        decreases right,
    {
        let ghost before = disk@;
        let ghost top = right;
        if disk.0[right] == Block::File(next_file_id) {
            let mut file_len: usize = 1;
            while right > 0 && disk.0[right - 1] == Block::File(next_file_id)
                invariant
                    n == disk@.len(),
                    disk@ == before,
                    right <= top < n,
                    file_len == top - right + 1,
                    run_start(before, next_file_id, top as int) == run_start(
                        before,
                        next_file_id,
                        right as int,
                    ),
                    forall|p: int| right <= p <= top ==> #[trigger] before[p] == Block::File(next_file_id),
                decreases right,
            {
                right -= 1;
                file_len += 1;
            }
            let file_start = right;
            assert(run_start(before, next_file_id, top as int) == file_start);
            let ghost span = if leftmost_free <= file_start {
                first_span(before, leftmost_free as int, file_start as int, file_len as int)
            } else {
                None
            };
            if leftmost_free <= file_start {
                match find_next_free_span(disk, leftmost_free, file_start, file_len) {
                    Some(free_span) => {
                        proof {
                            lemma_first_span(
                                before,
                                leftmost_free as int,
                                file_start as int,
                                file_len as int,
                                free_span as int,
                            );
                            lemma_run(before, next_file_id, file_start as int, top as int);
                        }
                        move_file(disk, free_span, file_start);
                        leftmost_free = find_next_free(disk, leftmost_free);
                    },
                    None => {
                        assert(span is None) by {
                            if exists|at: int|
                                is_first_span(
                                    before,
                                    leftmost_free as int,
                                    file_start as int,
                                    file_len as int,
                                    at,
                                ) {
                                let at = choose|at: int|
                                    is_first_span(
                                        before,
                                        leftmost_free as int,
                                        file_start as int,
                                        file_len as int,
                                        at,
                                    );
                                assert(free_span(before, at, file_len as int, file_start as int));
                            }
                        }
                    },
                }
            }
            if next_file_id == 0 || right == 0 {
                return ;
            }
            next_file_id -= 1;
            right -= 1;
        } else {
            right -= 1;
        }
    }
}

/// The checksum of the disk that the text writes, once it is compacted.
pub open spec fn part2(input: Seq<char>) -> int {
    let disk = compacted(blocks_of(trimmed(input), trimmed(input).len() as int));
    checksum_of(disk, disk.len() as int)
}

pub fn solve_part2(input: &str) -> (r: Option<u64>)
    requires
        well_formed(input@),
    ensures
        match r {
            Some(sum) => sum == part2(input@),
            None => part2(input@) > u64::MAX,
        },
{
    let mut disk = prepare(input);
    compact(&mut disk);
    disk.checksum()
}

/// Both checksums, or `None` where one does not fit 64 bits.
pub fn solve(input: String) -> (r: Option<SolutionPair>)
    requires
        well_formed(input@),
    ensures
        match r {
            Some(pair) => pair == (
                Solution::U64(part1(input@) as u64),
                Solution::U64(part2(input@) as u64),
            ) && part1(input@) <= u64::MAX && part2(input@) <= u64::MAX,
            None => part1(input@) > u64::MAX || part2(input@) > u64::MAX,
        },
{
    let sol1 = match solve_part1(input.as_str()) {
        Some(sum) => sum,
        None => {
            return None;
        },
    };
    let sol2 = match solve_part2(input.as_str()) {
        Some(sum) => sum,
        None => {
            return None;
        },
    };
    Some((Solution::U64(sol1), Solution::U64(sol2)))
}

} // verus!
