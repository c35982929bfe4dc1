//! A disk of blocks: each block belongs to a file or is free. Compacting
//! moves file blocks from the end of the disk into the free space at its
//! front.
use crate::scan::{
    digits_of, is_digit, push_number, string_push, strip_spaces, without_spaces,
};
use vstd::prelude::*;
use vstd::string::StringSliceAdditionalSpecFns;

verus! {

/// The number of a file.
pub type FileId = u32;

/// The blocks of a disk: for each block the file that it belongs to, or
/// `None` for a free block.
#[derive(Debug, PartialEq, Eq)]
pub struct DiskMap {
    pub disk: Vec<Option<FileId>>,
}

/// `n` blocks of the same kind.
pub open spec fn run(n: nat, block: Option<FileId>) -> Seq<Option<FileId>> {
    Seq::new(n, |i: int| block)
}

/// The disk that the first `n` digits of `map` lay out: the digits give in
/// turn the length of a file and the length of the free space behind it, and
/// the files are numbered from zero.
pub open spec fn laid_out(map: Seq<u8>, n: int) -> Seq<Option<FileId>>
    decreases n,
{
    if n <= 0 {
        Seq::empty()
    } else {
        let length = (map[n - 1] - 48) as nat;
        let block = if (n - 1) % 2 == 0 {
            Some(((n - 1) / 2) as FileId)
        } else {
            None
        };
        laid_out(map, n - 1) + run(length, block)
    }
}

/// Whether `map` is a disk map: digits only, and not more files than can be
/// numbered.
pub open spec fn is_disk_map(map: Seq<u8>) -> bool {
    &&& forall|i: int| 0 <= i < map.len() ==> is_digit(#[trigger] map[i])
    &&& map.len() <= u32::MAX
}

/// The characters that show `disk`: the number of its file for a file
/// block, a dot for a free block.
pub open spec fn shown(disk: Seq<Option<FileId>>) -> Seq<char>
    decreases disk.len(),
{
    if disk.len() == 0 {
        Seq::empty()
    } else {
        shown(disk.drop_last()) + match disk.last() {
            Some(id) => digits_of(id as nat),
            None => seq!['.'],
        }
    }
}

/// What block `i` adds to the checksum: its position times the number of
/// its file.
pub open spec fn block_sum(disk: Seq<Option<FileId>>, i: int) -> nat {
    match disk[i] {
        Some(id) => (id * i) as nat,
        None => 0,
    }
}

/// The checksum of the first `n` blocks.
pub open spec fn checksum_upto(disk: Seq<Option<FileId>>, n: int) -> nat
    decreases n,
{
    if n <= 0 {
        0
    } else {
        checksum_upto(disk, n - 1) + block_sum(disk, n - 1)
    }
}

/// The disk after compacting the blocks from `dst` to `src`: as long as the
/// two differ, a free block at `src` is passed over, a file block at `dst` is
/// passed over, and otherwise the file block at `src` moves to `dst`.
pub open spec fn compacted(disk: Seq<Option<FileId>>, dst: int, src: int) -> Seq<Option<FileId>>
    decreases src - dst, (if 0 <= src < disk.len() && disk[src].is_some() {
        1int
    } else {
        0int
    }),
{
    if dst >= src || dst < 0 || src >= disk.len() {
        disk
    } else if disk[src].is_none() {
        compacted(disk, dst, src - 1)
    } else if disk[dst].is_some() {
        compacted(disk, dst + 1, src)
    } else {
        compacted(disk.update(dst, disk[src]).update(src, None), dst, src)
    }
}

/// Whether all file blocks of `disk` come before all free blocks.
pub open spec fn is_compact(disk: Seq<Option<FileId>>) -> bool {
    forall|i: int, j: int|
        0 <= i < j < disk.len() && (#[trigger] disk[j]).is_some() ==> (#[trigger] disk[i]).is_some()
}

/// Compacting leaves no free block in front of a file block, changes
/// neither the size of the disk nor the blocks it holds, and leaves a file
/// block where it is unless it moves it to the front.
pub proof fn lemma_compacted(disk: Seq<Option<FileId>>, dst: int, src: int)
    requires
        0 <= dst,
        src < disk.len(),
        forall|i: int| 0 <= i < dst ==> (#[trigger] disk[i]).is_some(),
        forall|i: int| src < i < disk.len() ==> (#[trigger] disk[i]).is_none(),
    ensures
        compacted(disk, dst, src).len() == disk.len(),
        is_compact(compacted(disk, dst, src)),
        compacted(disk, dst, src).to_multiset() == disk.to_multiset(),
    decreases src - dst, (if 0 <= src < disk.len() && disk[src].is_some() {
        1int
    } else {
        0int
    }),
{
    if dst >= src {
    } else if disk[src].is_none() {
        lemma_compacted(disk, dst, src - 1);
    } else if disk[dst].is_some() {
        lemma_compacted(disk, dst + 1, src);
    } else {
        let moved = disk.update(dst, disk[src]).update(src, None);
        lemma_compacted(moved, dst, src);
        lemma_swap_multiset(disk, dst, src);
    }
}

/// Exchanging two blocks changes nothing in what the disk holds.
proof fn lemma_swap_multiset(disk: Seq<Option<FileId>>, a: int, b: int)
    requires
        0 <= a < b < disk.len(),
    ensures
        disk.update(a, disk[b]).update(b, disk[a]).to_multiset() == disk.to_multiset(),
{
    let first = disk.update(a, disk[b]);
    let swapped = first.update(b, disk[a]);
    vstd::seq_lib::to_multiset_update(disk, a, disk[b]);
    vstd::seq_lib::to_multiset_update(first, b, disk[a]);
    disk.to_multiset_ensures();
    assert(disk.contains(disk[a]));
    assert(disk.contains(disk[b]));
    assert(swapped.to_multiset() =~= disk.to_multiset());
}

impl DiskMap {
    /// Shows the disk: the number of its file for a file block, a dot for a
    /// free block.
    pub fn render(&self) -> (text: String)
        ensures
            text@ == shown(self.disk@),
    {
        let mut s = String::new();
        let mut i: usize = 0;
        while i < self.disk.len()
            invariant
                i <= self.disk@.len(),
                s@ == shown(self.disk@.take(i as int)),
            decreases self.disk@.len() - i,
        {
            proof {
                let next = self.disk@.take(i + 1);
                assert(next.drop_last() == self.disk@.take(i as int));
                assert(next.last() == self.disk@[i as int]);
            }
            match self.disk[i] {
                Some(id) => push_number(&mut s, id as u64),
                None => string_push(&mut s, '.'),
            }
            i += 1;
        }
        proof {
            assert(self.disk@.take(self.disk@.len() as int) == self.disk@);
        }
        s
    }

    /// Moves file blocks one at a time from the end of the disk to the
    /// leftmost free block, until no free block is left between file blocks.
    pub fn defrag(&mut self)
        ensures
            final(self).disk@ == compacted(old(self).disk@, 0, old(self).disk@.len() - 1),
            final(self).disk@.len() == old(self).disk@.len(),
            is_compact(final(self).disk@),
            final(self).disk@.to_multiset() == old(self).disk@.to_multiset(),
    {
        proof {
            if self.disk@.len() > 0 {
                lemma_compacted(self.disk@, 0, self.disk@.len() - 1);
            }
        }
        if self.disk.len() == 0 {
            return;
        }
        let mut dst: usize = 0;
        let mut src: usize = self.disk.len() - 1;
        while src != dst
            invariant
                dst <= src < self.disk@.len(),
                self.disk@.len() == old(self).disk@.len(),
                compacted(self.disk@, dst as int, src as int) == compacted(
                    old(self).disk@,
                    0,
                    old(self).disk@.len() - 1,
                ),
            decreases src - dst, (if self.disk@[src as int].is_some() {
                1int
            } else {
                0int
            }),
        {
            if self.disk[src].is_none() {
                src -= 1;
                continue;
            }
            if self.disk[dst].is_some() {
                dst += 1;
                continue;
            }
            let block = self.disk[src];
            self.disk.set(dst, block);
            self.disk.set(src, None);
        }
    }

    /// The sum over the blocks that hold a file of the block's position times
    /// the file's number.
    pub fn checksum(&self) -> (sum: u64)
        requires
            checksum_upto(self.disk@, self.disk@.len() as int) <= u64::MAX,
        ensures
            sum == checksum_upto(self.disk@, self.disk@.len() as int),
    {
        let mut sum: u64 = 0;
        let mut i: usize = 0;
        while i < self.disk.len()
            invariant
                i <= self.disk@.len(),
                sum == checksum_upto(self.disk@, i as int),
                checksum_upto(self.disk@, self.disk@.len() as int) <= u64::MAX,
            decreases self.disk@.len() - i,
        {
            proof {
                lemma_checksum_monotonic(self.disk@, i as int + 1, self.disk@.len() as int);
            }
            if let Some(b) = self.disk[i] {
                assert(b * i == block_sum(self.disk@, i as int));
                sum += b as u64 * i as u64;
            }
            i += 1;
        }
        sum
    }
}

/// The checksum of more blocks is no smaller.
pub proof fn lemma_checksum_monotonic(disk: Seq<Option<FileId>>, a: int, b: int)
    requires
        a <= b,
    ensures
        checksum_upto(disk, a) <= checksum_upto(disk, b),
    decreases b - a,
{
    if a < b {
        lemma_checksum_monotonic(disk, a, b - 1);
    }
}

/// Reads a disk map and lays out its disk. Separators in the text are
/// skipped. The result is `None` when what is left is no disk map.
pub fn parse(input: &str) -> (parsed: Option<DiskMap>)
    ensures
        match parsed {
            Some(map) => is_disk_map(without_spaces(input.spec_bytes())) && map.disk@ == laid_out(
                without_spaces(input.spec_bytes()),
                without_spaces(input.spec_bytes()).len() as int,
            ),
            None => !is_disk_map(without_spaces(input.spec_bytes())),
        },
{
    let map = strip_spaces(input.as_bytes());
    let mut disk: Vec<Option<FileId>> = Vec::new();
    let mut i: usize = 0;
    if map.len() > u32::MAX as usize {
        return None;
    }
    while i < map.len()
        invariant
            map@ == without_spaces(input.spec_bytes()),
            map@.len() <= u32::MAX,
            i <= map@.len(),
            forall|j: int| 0 <= j < i ==> is_digit(#[trigger] map@[j]),
            disk@ == laid_out(map@, i as int),
        decreases map@.len() - i,
    {
        let byte = map[i];
        if byte < 48 || byte > 57 {
            proof {
                assert(!is_digit(map@[i as int]));
            }
            return None;
        }
        let num_blocks = byte - 48;
        let is_file = i % 2 == 0;
        let blocks = if is_file {
            Some((i / 2) as u32)
        } else {
            None
        };
        let ghost before = disk@;
        let mut k: u8 = 0;
        while k < num_blocks
            invariant
                k <= num_blocks,
                disk@ == before + run(k as nat, blocks),
            decreases num_blocks - k,
        {
            disk.push(blocks);
            proof {
                assert(run((k + 1) as nat, blocks) =~= run(k as nat, blocks).push(blocks));
                assert(disk@ =~= before + run((k + 1) as nat, blocks));
            }
            k += 1;
        }
        i += 1;
    }
    Some(DiskMap { disk })
}

/// The checksum of the disk after compacting it block by block.
pub fn q1(input: &DiskMap) -> (sum: u64)
    requires
        ({
            let solved = compacted(input.disk@, 0, input.disk@.len() - 1);
            checksum_upto(solved, solved.len() as int) <= u64::MAX
        }),
    ensures
        ({
            let solved = compacted(input.disk@, 0, input.disk@.len() - 1);
            sum == checksum_upto(solved, solved.len() as int)
        }),
{
    let mut solved = input.clone();
    solved.defrag();
    solved.checksum()
}

/// The number of free blocks in a row from block `p` on.
pub open spec fn free_len(disk: Seq<Option<FileId>>, p: int) -> nat
    decreases disk.len() - p,
{
    if p < 0 || p >= disk.len() || disk[p].is_some() {
        0
    } else {
        1 + free_len(disk, p + 1)
    }
}

/// Whether a file of `want` blocks fits into the free space that starts at
/// block `p`.
pub open spec fn fits_at(disk: Seq<Option<FileId>>, want: nat, p: int) -> bool {
    0 <= p < disk.len() && disk[p].is_none() && free_len(disk, p) >= want
}

/// The first block from `from` on and before `to` at which a file of `want`
/// blocks fits.
pub open spec fn first_fit(disk: Seq<Option<FileId>>, want: nat, from: int, to: int) -> Option<int>
    decreases to - from,
{
    if from >= to {
        None
    } else if fits_at(disk, want, from) {
        Some(from)
    } else {
        first_fit(disk, want, from + 1, to)
    }
}

/// The number of blocks in a row up to block `src` that hold what block
/// `src` holds.
pub open spec fn run_len(disk: Seq<Option<FileId>>, src: int) -> nat
    decreases src,
{
    if src < 0 || src >= disk.len() {
        0
    } else if src == 0 || disk[src - 1] != disk[src] {
        1
    } else {
        1 + run_len(disk, src - 1)
    }
}

/// The disk with the `size` blocks that end at `src` moved to the free
/// space that starts at `dst`.
pub open spec fn with_file_moved(disk: Seq<Option<FileId>>, dst: int, src: int, size: int) -> Seq<
    Option<FileId>,
> {
    Seq::new(
        disk.len(),
        |i: int|
            if dst <= i < dst + size {
                disk[src]
            } else if src - size < i <= src {
                None
            } else {
                disk[i]
            },
    )
}

/// The disk after moving whole files, from the last to the first, each to
/// the first free space before it into which it fits, if there is one. The
/// search for free space starts at `dst` and the files up to `src` are still
/// to be looked at.
pub open spec fn files_moved(disk: Seq<Option<FileId>>, dst: int, src: int) -> Seq<Option<FileId>>
    decreases src, disk.len() - dst,
{
    if dst >= src || dst < 0 || src >= disk.len() {
        disk
    } else if disk[src].is_none() {
        files_moved(disk, dst, src - 1)
    } else if disk[dst].is_some() {
        files_moved(disk, dst + 1, src)
    } else {
        let size = run_len(disk, src) as int;
        if size < 1 || size > src - dst {
            disk
        } else {
            match first_fit(disk, size as nat, dst, src) {
                Some(to) => files_moved(with_file_moved(disk, to, src, size), 0, src - size),
                None => files_moved(disk, dst, src - size),
            }
        }
    }
}

/// Free space that starts inside a run of free blocks is what is left of
/// the run.
pub proof fn lemma_free_len_inside(disk: Seq<Option<FileId>>, p: int, k: int)
    requires
        0 <= p,
        0 <= k <= free_len(disk, p),
    ensures
        free_len(disk, p + k) == free_len(disk, p) - k,
        forall|j: int| p <= j < p + free_len(disk, p) ==> (#[trigger] disk[j]).is_none(),
        p <= disk.len() ==> p + free_len(disk, p) <= disk.len(),
    decreases disk.len() - p,
{
    if p < disk.len() && disk[p].is_none() {
        if k > 0 {
            lemma_free_len_inside(disk, p + 1, k - 1);
        } else {
            lemma_free_len_inside(disk, p + 1, 0);
        }
    }
}

/// No file fits at a block before the first fit.
pub proof fn lemma_first_fit(disk: Seq<Option<FileId>>, want: nat, from: int, to: int)
    ensures
        match first_fit(disk, want, from, to) {
            Some(p) => from <= p < to && fits_at(disk, want, p) && forall|q: int|
                from <= q < p ==> !fits_at(disk, want, q),
            None => forall|q: int| from <= q < to ==> !fits_at(disk, want, q),
        },
    decreases to - from,
{
    if from < to && !fits_at(disk, want, from) {
        lemma_first_fit(disk, want, from + 1, to);
    }
}

/// The first fit is the one block at which a file fits and before which
/// none does.
pub proof fn lemma_first_fit_is(disk: Seq<Option<FileId>>, want: nat, from: int, to: int, p: int)
    requires
        from <= p < to,
        fits_at(disk, want, p),
        forall|q: int| from <= q < p ==> !fits_at(disk, want, q),
    ensures
        first_fit(disk, want, from, to) == Some(p),
    decreases to - from,
{
    if from < p {
        lemma_first_fit_is(disk, want, from + 1, to, p);
    }
}

/// When no file fits before `to`, there is no first fit.
pub proof fn lemma_first_fit_none(disk: Seq<Option<FileId>>, want: nat, from: int, to: int)
    requires
        forall|q: int| from <= q < to ==> !fits_at(disk, want, q),
    ensures
        first_fit(disk, want, from, to).is_none(),
    decreases to - from,
{
    if from < to {
        lemma_first_fit_none(disk, want, from + 1, to);
    }
}

impl DiskMap {
    /// Find a free space big enough to fit all `want_size` blocks.
    /// Search in the given range (inclusive, exclusive).
    pub fn find_free_space_at_least(
        &self,
        want_size: usize,
        starting_at: usize,
        ending_at: usize,
    ) -> (found: Option<usize>)
        requires
            starting_at <= ending_at < self.disk@.len(),
            self.disk@[ending_at as int].is_some(),
        ensures
            match found {
                Some(at) => first_fit(
                    self.disk@,
                    want_size as nat,
                    starting_at as int,
                    ending_at as int,
                ) == Some(at as int),
                None => first_fit(
                    self.disk@,
                    want_size as nat,
                    starting_at as int,
                    ending_at as int,
                ).is_none(),
            },
    {
        let ghost disk = self.disk@;
        let mut candidate_dst = starting_at;
        while candidate_dst < ending_at
            invariant
                disk == self.disk@,
                starting_at <= candidate_dst <= ending_at < disk.len(),
                disk[ending_at as int].is_some(),
                forall|q: int| starting_at <= q < candidate_dst ==> !fits_at(disk, want_size as nat, q),
            decreases ending_at - candidate_dst,
        {
            if self.disk[candidate_dst].is_some() {
                candidate_dst += 1;
                continue;
            }
            let mut len_dst: usize = 1;
            while self.disk[candidate_dst + len_dst].is_none()
                invariant
                    disk == self.disk@,
                    candidate_dst < ending_at < disk.len(),
                    disk[ending_at as int].is_some(),
                    1 <= len_dst,
                    candidate_dst + len_dst <= ending_at,
                    forall|j: int| candidate_dst <= j < candidate_dst + len_dst ==> (
                    #[trigger] disk[j]).is_none(),
                    len_dst <= free_len(disk, candidate_dst as int),
                decreases ending_at - candidate_dst - len_dst,
            {
                proof {
                    lemma_free_len_inside(disk, candidate_dst as int, len_dst as int);
                }
                len_dst += 1;
            }
            proof {
                lemma_free_len_inside(disk, candidate_dst as int, len_dst as int);
                assert(free_len(disk, candidate_dst as int) == len_dst);
            }
            // Is this free space big enough to hold the file?
            if len_dst >= want_size {
                proof {
                    lemma_first_fit_is(
                        disk,
                        want_size as nat,
                        starting_at as int,
                        ending_at as int,
                        candidate_dst as int,
                    );
                }
                return Some(candidate_dst);
            }
            proof {
                assert forall|q: int|
                    candidate_dst <= q < candidate_dst + len_dst implies !fits_at(
                    disk,
                    want_size as nat,
                    q,
                ) by {
                    lemma_free_len_inside(disk, candidate_dst as int, q - candidate_dst);
                }
            }
            // If not, then skip over this free space, let's try the next one.
            candidate_dst += len_dst;
        }
        proof {
            lemma_first_fit_none(disk, want_size as nat, starting_at as int, ending_at as int);
        }
        None
    }

    /// Moves whole files, from the last to the first, each to the first free
    /// space before it into which it fits.
    pub fn defrag_entire_files(&mut self)
        ensures
            final(self).disk@ == files_moved(old(self).disk@, 0, old(self).disk@.len() - 1),
            final(self).disk@.len() == old(self).disk@.len(),
    {
        if self.disk.len() == 0 {
            return;
        }
        let mut dst: usize = 0;
        let mut src: usize = self.disk.len() - 1;
        while src != dst
            invariant
                dst <= src < self.disk@.len(),
                self.disk@.len() == old(self).disk@.len(),
                files_moved(self.disk@, dst as int, src as int) == files_moved(
                    old(self).disk@,
                    0,
                    old(self).disk@.len() - 1,
                ),
            decreases src, self.disk@.len() - dst,
        {
            // Find the end of the rightmost file.
            if self.disk[src].is_none() {
                src -= 1;
                continue;
            }
            // Find the start of the leftmost free space.
            if self.disk[dst].is_some() {
                dst += 1;
                continue;
            }
            let ghost disk = self.disk@;
            let id = self.disk[src];
            // How long is the file?
            let mut filesize: usize = 1;
            while self.disk[src - filesize] == id
                invariant
                    disk == self.disk@,
                    dst < src < disk.len(),
                    disk[dst as int].is_none(),
                    id == disk[src as int],
                    id.is_some(),
                    1 <= filesize <= src - dst,
                    run_len(disk, src as int) == (filesize - 1) + run_len(
                        disk,
                        src - (filesize - 1),
                    ),
                    forall|j: int| src - filesize < j <= src ==> #[trigger] disk[j] == id,
                decreases src - filesize,
            {
                filesize += 1;
            }
            assert(run_len(disk, src as int) == filesize);
            match self.find_free_space_at_least(filesize, dst, src) {
                Some(dst_start) => {
                    proof {
                        lemma_first_fit(disk, filesize as nat, dst as int, src as int);
                        lemma_free_len_inside(disk, dst_start as int, 0);
                        if dst_start > src - filesize {
                            assert(disk[dst_start as int] == id);
                        }
                        if dst_start + filesize > src - filesize + 1 {
                            let j = src - filesize + 1;
                            assert(disk[j].is_none());
                            assert(disk[j] == id);
                        }
                    }
                    // Swap the free space and the file.
                    let mut i: usize = 0;
                    while i < filesize
                        invariant
                            i <= filesize,
                            dst <= dst_start,
                            dst_start + filesize <= src - filesize + 1,
                            src < disk.len(),
                            id == disk[src as int],
                            self.disk@.len() == disk.len(),
                            forall|j: int|
                                0 <= j < disk.len() ==> #[trigger] self.disk@[j] == (if dst_start
                                    <= j < dst_start + i {
                                    id
                                } else if src - i < j <= src {
                                    None
                                } else {
                                    disk[j]
                                }),
                        decreases filesize - i,
                    {
                        self.disk.set(dst_start + i, id);
                        self.disk.set(src - i, None);
                        i += 1;
                    }
                    proof {
                        assert(self.disk@ =~= with_file_moved(
                            disk,
                            dst_start as int,
                            src as int,
                            filesize as int,
                        ));
                    }
                    // Look for a new file to defragment, and re-examine all possible
                    // free spaces (because the new file might be smaller than the current one,
                    // and fit into spaces this one couldn't).
                    src -= filesize;
                    dst = 0;
                },
                None => {
                    // We never found a free space big enough for the file.
                    // So you should just move on to the next file, this one can't be defragmented.
                    src -= filesize;
                },
            }
        }
    }
}

impl Clone for DiskMap {
    fn clone(&self) -> (copy: Self)
        ensures
            copy.disk@ == self.disk@,
    {
        let copy = DiskMap { disk: self.disk.clone() };
        assert(copy.disk@ =~= self.disk@);
        copy
    }
}

/// The checksum of the disk after moving whole files to the front.
pub fn q2(input: &DiskMap) -> (sum: u64)
    requires
        ({
            let solved = files_moved(input.disk@, 0, input.disk@.len() - 1);
            checksum_upto(solved, solved.len() as int) <= u64::MAX
        }),
    ensures
        ({
            let solved = files_moved(input.disk@, 0, input.disk@.len() - 1);
            sum == checksum_upto(solved, solved.len() as int)
        }),
{
    let mut solved = input.clone();
    solved.defrag_entire_files();
    solved.checksum()
}

} // verus!
