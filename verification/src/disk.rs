use vstd::prelude::*;

verus! {

/// A file on the disk: its number, the block it starts at and its length
/// in blocks.
#[derive(Clone, Copy, Debug, PartialEq, Eq)]
pub struct File {
    pub id: usize,
    pub start: u32,
    pub length: u32,
}

impl File {
    /// The file with number `id` that starts at block `start` and is
    /// `length` blocks long.
    pub fn new(id: usize, start: u32, length: u32) -> (f: Self)
        ensures
            f == (File { id, start, length }),
    {
        Self { id, start, length }
    }
}

/// A stretch of the disk: a file or free space.
#[derive(Clone, Copy, Debug, PartialEq, Eq)]
pub enum DiskSpace {
    File { id: usize, length: u32 },
    Free { length: u32 },
}

impl DiskSpace {
    /// The length of the stretch in blocks.
    pub open spec fn len(self) -> u32 {
        match self {
            DiskSpace::File { length, .. } => length,
            DiskSpace::Free { length } => length,
        }
    }

    /// The stretch with another length.
    pub open spec fn with_len(self, length: u32) -> DiskSpace {
        match self {
            DiskSpace::File { id, .. } => DiskSpace::File { id, length },
            DiskSpace::Free { .. } => DiskSpace::Free { length },
        }
    }

    /// The length of the stretch in blocks.
    pub fn length(&self) -> (n: u32)
        ensures
            n == self.len(),
    {
        match self {
            Self::File { length, .. } => *length,
            Self::Free { length } => *length,
        }
    }

    /// Whether the stretch is free space.
    pub fn is_free_space(&self) -> (r: bool)
        ensures
            r == (*self is Free),
    {
        match self {
            Self::Free { .. } => true,
            _ => false,
        }
    }

    /// Makes the stretch longer by `arg` blocks.
    pub fn increment_length(&mut self, arg: u32)
        requires
            old(self).len() + arg <= u32::MAX,
        ensures
            *final(self) == old(self).with_len((old(self).len() + arg) as u32),
    {
        match *self {
            Self::File { id, length } => {
                *self = Self::File { id, length: length + arg };
            },
            Self::Free { length } => {
                *self = Self::Free { length: length + arg };
            },
        }
    }
}

/// The sum, over `n` blocks in a row from block `from`, of the block's
/// number times `id`.
pub open spec fn block_sum(from: nat, id: nat, n: nat) -> nat
    decreases n,
{
    if n == 0 {
        0
    } else {
        (block_sum(from, id, (n - 1) as nat) + (from + n - 1) * id) as nat
    }
}

/// The sum over fewer blocks is no more.
pub proof fn lemma_block_sum_grows(from: nat, id: nat, k: nat, n: nat)
    requires
        k <= n,
    ensures
        block_sum(from, id, k) <= block_sum(from, id, n),
    decreases n,
{
    if k < n {
        lemma_block_sum_grows(from, id, k, (n - 1) as nat);
        assert((from + n - 1) * id >= 0) by (nonlinear_arith)
            requires
                from + n - 1 >= 0,
                id >= 0,
        ;
    }
}

/// The checksum of files: for each block of each file, the block's number
/// times the file's number, all added up.
pub open spec fn files_checksum(files: Seq<File>) -> nat
    decreases files.len(),
{
    if files.len() == 0 {
        0
    } else {
        files_checksum(files.drop_last()) + block_sum(
            files.last().start as nat,
            files.last().id as nat,
            files.last().length as nat,
        )
    }
}

/// The checksum of the first files is no more than that of all.
pub proof fn lemma_files_checksum_grows(files: Seq<File>, i: int)
    requires
        0 <= i <= files.len(),
    ensures
        files_checksum(files.subrange(0, i)) <= files_checksum(files),
    decreases files.len() - i,
{
    if i < files.len() {
        lemma_files_checksum_grows(files, i + 1);
        assert(files.subrange(0, i + 1).drop_last() =~= files.subrange(0, i));
    } else {
        assert(files.subrange(0, i) =~= files);
    }
}

/// Adds to `result` the checksum of `length` blocks in a row from block
/// `from` that belong to file `id`.
fn add_blocks(result: u128, from: u128, id: usize, length: u32) -> (sum: u128)
    requires
        result + block_sum(from as nat, id as nat, length as nat) <= u128::MAX,
        from + length <= u128::MAX,
    ensures
        sum == result + block_sum(from as nat, id as nat, length as nat),
{
    let mut sum = result;
    let mut counter: u32 = 0;
    while counter < length
        invariant
            counter <= length,
            from + length <= u128::MAX,
            result + block_sum(from as nat, id as nat, length as nat) <= u128::MAX,
            sum == result + block_sum(from as nat, id as nat, counter as nat),
        decreases length - counter,
    {
        proof {
            lemma_block_sum_grows(from as nat, id as nat, (counter + 1) as nat, length as nat);
        }
        let value = (from + counter as u128) * (id as u128);
        sum = sum + value;
        counter += 1;
    }
    sum
}

/// The checksum of files: for each block of each file, the block's number
/// times the file's number, all added up.
pub fn checksum_files(files: &Vec<File>) -> (result: u128)
    requires
        files_checksum(files@) <= u128::MAX,
    ensures
        result == files_checksum(files@),
{
    let mut result: u128 = 0;
    let mut i: usize = 0;
    while i < files.len()
        invariant
            i <= files.len(),
            files_checksum(files@) <= u128::MAX,
            result == files_checksum(files@.subrange(0, i as int)),
        decreases files.len() - i,
    {
        proof {
            lemma_files_checksum_grows(files@, i + 1);
            assert(files@.subrange(0, i + 1).drop_last() =~= files@.subrange(0, i as int));
        }
        let file = files[i];
        result = add_blocks(result, file.start as u128, file.id, file.length);
        i += 1;
    }
    proof {
        assert(files@.subrange(0, i as int) =~= files@);
    }
    result
}

/// The number of blocks that the stretches take up together.
pub open spec fn extent(spaces: Seq<DiskSpace>) -> nat
    decreases spaces.len(),
{
    if spaces.len() == 0 {
        0
    } else {
        extent(spaces.drop_last()) + spaces.last().len() as nat
    }
}

/// The checksum of a disk laid out as stretches in a row from block zero:
/// for each block of each file, the block's number times the file's
/// number, all added up.
pub open spec fn disk_checksum(spaces: Seq<DiskSpace>) -> nat
    decreases spaces.len(),
{
    if spaces.len() == 0 {
        0
    } else {
        disk_checksum(spaces.drop_last()) + match spaces.last() {
            DiskSpace::Free { .. } => 0nat,
            DiskSpace::File { id, length } => block_sum(
                extent(spaces.drop_last()),
                id as nat,
                length as nat,
            ),
        }
    }
}

/// The checksum of the first stretches is no more than that of all.
pub proof fn lemma_disk_checksum_grows(spaces: Seq<DiskSpace>, i: int)
    requires
        0 <= i <= spaces.len(),
    ensures
        disk_checksum(spaces.subrange(0, i)) <= disk_checksum(spaces),
    decreases spaces.len() - i,
{
    if i < spaces.len() {
        lemma_disk_checksum_grows(spaces, i + 1);
        assert(spaces.subrange(0, i + 1).drop_last() =~= spaces.subrange(0, i));
    } else {
        assert(spaces.subrange(0, i) =~= spaces);
    }
}

/// Stretches of at most `u32::MAX` blocks each, as many as a list can
/// hold, take up less than two to the power of 96 blocks.
pub proof fn lemma_extent_bounded(spaces: Seq<DiskSpace>)
    ensures
        extent(spaces) <= spaces.len() * 0xffff_ffff,
    decreases spaces.len(),
{
    if spaces.len() > 0 {
        lemma_extent_bounded(spaces.drop_last());
    }
}

/// The checksum of a disk laid out as stretches in a row from block zero.
pub fn checksum(files: &Vec<DiskSpace>) -> (result: u128)
    requires
        disk_checksum(files@) <= u128::MAX,
    ensures
        result == disk_checksum(files@),
{
    let mut result: u128 = 0;
    let mut from_start: u128 = 0;
    let mut i: usize = 0;
    while i < files.len()
        invariant
            i <= files.len(),
            disk_checksum(files@) <= u128::MAX,
            result == disk_checksum(files@.subrange(0, i as int)),
            from_start == extent(files@.subrange(0, i as int)),
        decreases files.len() - i,
    {
        proof {
            lemma_disk_checksum_grows(files@, i + 1);
            lemma_extent_bounded(files@.subrange(0, i + 1));
            assert(files@.subrange(0, i + 1).drop_last() =~= files@.subrange(0, i as int));
        }
        let file = files[i];
        match file {
            DiskSpace::Free { length } => {
                from_start = from_start + length as u128;
            },
            DiskSpace::File { id, length } => {
                result = add_blocks(result, from_start, id, length);
                from_start = from_start + file.length() as u128;
            },
        }
        i += 1;
    }
    proof {
        assert(files@.subrange(0, i as int) =~= files@);
    }
    result
}

/// Whether the stretch at place `at` is free space before the place just
/// before `current` and long enough for `file`.
pub open spec fn fits_at(files: Seq<DiskSpace>, file: DiskSpace, current: int, at: int) -> bool {
    0 <= at < files.len() && at + 1 < current && files[at] is Free && files[at].len() >= file.len()
}

/// The first place before the place just before `current` where free space
/// is long enough for `file`, if `file` is a file and there is such a place.
pub fn first_possible_space(files: &Vec<DiskSpace>, file: &DiskSpace, current: usize) -> (r: Option<
    usize,
>)
    ensures
        match r {
            Some(at) => *file is File && fits_at(files@, *file, current as int, at as int) && forall|
                j: int,
            |
                0 <= j < at ==> !fits_at(files@, *file, current as int, j),
            None => *file is Free || forall|j: int| !fits_at(files@, *file, current as int, j),
        },
{
    if file.is_free_space() {
        return None;
    }
    let mut i: usize = 0;
    while i < files.len() && i + 1 < current
        invariant
            i <= files.len(),
            *file is File,
            forall|j: int| 0 <= j < i ==> !fits_at(files@, *file, current as int, j),
        decreases files.len() - i,
    {
        let free_space = files[i];
        if free_space.is_free_space() && free_space.length() >= file.length() {
            return Some(i);
        }
        i += 1;
    }
    None
}

/// The digit that `c` shows, if it shows one.
pub open spec fn digit_of(c: char) -> Option<u32> {
    if '0' <= c <= '9' {
        Some((c as u32 - '0' as u32) as u32)
    } else {
        None
    }
}

/// The digit that `c` shows, if it shows one.
pub fn process_char(c: char) -> (r: Option<u32>)
    ensures
        r == digit_of(c),
{
    if c >= '0' && c <= '9' {
        Some(c as u32 - '0' as u32)
    } else {
        None
    }
}

/// The sum of the numbers.
pub open spec fn sum_of(numbers: Seq<u32>) -> nat
    decreases numbers.len(),
{
    if numbers.len() == 0 {
        0
    } else {
        sum_of(numbers.drop_last()) + numbers.last() as nat
    }
}

/// The sum of the first numbers is no more than the sum of all.
pub proof fn lemma_sum_of_grows(numbers: Seq<u32>, i: int)
    requires
        0 <= i <= numbers.len(),
    ensures
        sum_of(numbers.subrange(0, i)) <= sum_of(numbers),
    decreases numbers.len() - i,
{
    if i < numbers.len() {
        lemma_sum_of_grows(numbers, i + 1);
        assert(numbers.subrange(0, i + 1).drop_last() =~= numbers.subrange(0, i));
    } else {
        assert(numbers.subrange(0, i) =~= numbers);
    }
}

/// The files of a disk map: the numbers are the lengths of a file, of the
/// free space behind it, of the next file, and so on. The files are
/// numbered from zero and start where the stretches before them end.
pub open spec fn files_of(numbers: Seq<u32>) -> Seq<File>
    decreases numbers.len(),
{
    if numbers.len() == 0 {
        Seq::empty()
    } else if numbers.len() % 2 == 0 {
        files_of(numbers.drop_last())
    } else {
        files_of(numbers.drop_last()).push(
            File {
                id: (numbers.len() / 2) as usize,
                start: sum_of(numbers.drop_last()) as u32,
                length: numbers.last(),
            },
        )
    }
}

/// A disk map of `n` numbers holds a file for every second one.
pub proof fn lemma_files_of_len(numbers: Seq<u32>)
    ensures
        files_of(numbers).len() == (numbers.len() + 1) / 2,
    decreases numbers.len(),
{
    if numbers.len() > 0 {
        lemma_files_of_len(numbers.drop_last());
    }
}

/// The files of a disk map, each with its number, start and length.
pub fn load_files(numbers: &Vec<u32>) -> (files: Vec<File>)
    requires
        sum_of(numbers@) <= u32::MAX,
    ensures
        files@ == files_of(numbers@),
{
    let mut i: u32 = 0;
    let mut files: Vec<File> = Vec::new();
    let mut k: usize = 0;
    while k < numbers.len()
        invariant
            k <= numbers.len(),
            sum_of(numbers@) <= u32::MAX,
            i == sum_of(numbers@.subrange(0, k as int)),
            files@ == files_of(numbers@.subrange(0, k as int)),
        decreases numbers.len() - k,
    {
        proof {
            lemma_sum_of_grows(numbers@, k + 1);
            lemma_files_of_len(numbers@.subrange(0, k as int));
            assert(numbers@.subrange(0, k + 1).drop_last() =~= numbers@.subrange(0, k as int));
        }
        let length = numbers[k];
        if k % 2 == 0 {
            files.push(File::new(files.len(), i, length));
        }
        i = i + length;
        k += 1;
    }
    proof {
        assert(numbers@.subrange(0, k as int) =~= numbers@);
    }
    files
}

/// The stretches of a disk map: the numbers are the lengths of a file, of
/// the free space behind it, of the next file, and so on. The files are
/// numbered from zero.
pub open spec fn disk_space_of(numbers: Seq<u32>) -> Seq<DiskSpace> {
    Seq::new(
        numbers.len(),
        |i: int|
            if i % 2 == 0 {
                DiskSpace::File { id: (i / 2) as usize, length: numbers[i] }
            } else {
                DiskSpace::Free { length: numbers[i] }
            },
    )
}

/// The stretches of a disk map, files and free space in turn.
pub fn load_disk_space(numbers: &Vec<u32>) -> (spaces: Vec<DiskSpace>)
    ensures
        spaces@ == disk_space_of(numbers@),
{
    let mut file_counter: usize = 0;
    let mut spaces: Vec<DiskSpace> = Vec::new();
    let mut i: usize = 0;
    while i < numbers.len()
        invariant
            i <= numbers.len(),
            file_counter == (i + 1) / 2,
            spaces@.len() == i,
            forall|j: int| 0 <= j < i ==> spaces@[j] == disk_space_of(numbers@)[j],
        decreases numbers.len() - i,
    {
        let length = numbers[i];
        if i % 2 == 0 {
            spaces.push(DiskSpace::File { id: file_counter, length });
            file_counter = file_counter + 1;
        } else {
            spaces.push(DiskSpace::Free { length });
        }
        i += 1;
    }
    proof {
        assert(spaces@ =~= disk_space_of(numbers@));
    }
    spaces
}

/// The last file with `taken` blocks fewer.
pub open spec fn shorten_last(files: Seq<File>, taken: u32) -> Seq<File> {
    files.update(
        files.len() - 1,
        File { length: (files.last().length - taken) as u32, ..files.last() },
    )
}

/// The files after the gaps between them have been filled from block `i`
/// on, where the files before place `file_counter` are in place already.
/// A gap before a file is filled with blocks from the end of the last
/// file, which is dropped when none of it is left.
pub open spec fn fill_gaps_from(files: Seq<File>, i: u32, file_counter: nat) -> Seq<File>
    decreases files.len() - file_counter, (if file_counter < files.len() && i
        < files[file_counter as int].start {
        1nat
    } else {
        0nat
    }),
{
    if file_counter >= files.len() {
        Seq::empty()
    } else {
        let file = files[file_counter as int];
        if i < file.start {
            let last_file = files.last();
            let gap = (file.start - i) as u32;
            let length = if gap < last_file.length {
                gap
            } else {
                last_file.length
            };
            let piece = File { id: last_file.id, start: i, length };
            let rest = if length == last_file.length {
                files.drop_last()
            } else {
                shorten_last(files, length)
            };
            seq![piece] + fill_gaps_from(rest, (i + length) as u32, file_counter)
        } else {
            seq![file] + fill_gaps_from(
                files,
                (file.start + file.length) as u32,
                file_counter + 1,
            )
        }
    }
}

/// Whether no file reaches beyond the last block that can be numbered.
pub open spec fn files_fit(files: Seq<File>) -> bool {
    forall|k: int| 0 <= k < files.len() ==> (#[trigger] files[k]).start + files[k].length <= u32::MAX
}

/// Fills the gaps between the files, from the front, with blocks taken
/// from the end of the last file.
pub fn fill_gaps(files: Vec<File>) -> (compressed_files: Vec<File>)
    requires
        files_fit(files@),
    ensures
        compressed_files@ == fill_gaps_from(files@, 0, 0),
{
    let mut files = files;
    let ghost all = fill_gaps_from(files@, 0, 0);
    let mut compressed_files: Vec<File> = Vec::new();
    let mut i: u32 = 0;
    let mut file_counter: usize = 0;
    while file_counter < files.len()
        invariant
            files_fit(files@),
            compressed_files@ + fill_gaps_from(files@, i, file_counter as nat) == all,
        decreases files.len() - file_counter, (if file_counter < files.len() && i
            < files@[file_counter as int].start {
            1nat
        } else {
            0nat
        }),
    {
        let file = files[file_counter];
        let ghost before = compressed_files@;
        let ghost old_files = files@;
        let ghost rest = fill_gaps_from(old_files, i, file_counter as nat);
        if i < file.start {
            let last = files.len() - 1;
            let last_file = files[last];
            let gap = file.start - i;
            let length = if gap < last_file.length {
                gap
            } else {
                last_file.length
            };
            compressed_files.push(File::new(last_file.id, i, length));
            i = i + length;
            if length == last_file.length {
                files.pop();
                proof {
                    assert(files@ =~= old_files.drop_last());
                }
            } else {
                files.set(last, File { id: last_file.id, start: last_file.start, length: last_file.length - length });
                proof {
                    assert(files@ =~= shorten_last(old_files, length));
                }
            }
            proof {
                let piece = File { id: last_file.id, start: (i - length) as u32, length };
                assert(rest == seq![piece] + fill_gaps_from(files@, i, file_counter as nat));
                assert(before.push(piece) + fill_gaps_from(files@, i, file_counter as nat) =~= before
                    + rest);
            }
        } else {
            compressed_files.push(file);
            i = file.start + file.length;
            file_counter += 1;
            proof {
                assert(rest == seq![file] + fill_gaps_from(files@, i, file_counter as nat));
                assert(before.push(file) + fill_gaps_from(files@, i, file_counter as nat) =~= before
                    + rest);
            }
        }
    }
    proof {
        assert(fill_gaps_from(files@, i, file_counter as nat) =~= Seq::<File>::empty());
        assert(compressed_files@ + Seq::<File>::empty() =~= compressed_files@);
    }
    compressed_files
}

/// The files of a disk map end where the map ends, at the latest.
pub proof fn lemma_files_of_fit(numbers: Seq<u32>)
    requires
        sum_of(numbers) <= u32::MAX,
    ensures
        forall|k: int|
            0 <= k < files_of(numbers).len() ==> (#[trigger] files_of(numbers)[k]).start + files_of(
                numbers,
            )[k].length <= sum_of(numbers),
        files_fit(files_of(numbers)),
    decreases numbers.len(),
{
    if numbers.len() > 0 {
        lemma_files_of_fit(numbers.drop_last());
    }
}

/// The checksum of the files of a disk map after the gaps between them
/// have been filled.
pub fn part1(numbers: &Vec<u32>) -> (result: u128)
    requires
        sum_of(numbers@) <= u32::MAX,
        files_checksum(fill_gaps_from(files_of(numbers@), 0, 0)) <= u128::MAX,
    ensures
        result == files_checksum(fill_gaps_from(files_of(numbers@), 0, 0)),
{
    let files = load_files(numbers);
    proof {
        lemma_files_of_fit(numbers@);
    }
    let compressed_files = fill_gaps(files);
    checksum_files(&compressed_files)
}

/// The sum, over the files among the stretches, of the place of each, the
/// places counted from `offset` and one.
pub open spec fn weight_at(s: Seq<DiskSpace>, offset: int) -> int
    decreases s.len(),
{
    if s.len() == 0 {
        0
    } else {
        weight_at(s.drop_last(), offset) + if s.last() is File {
            offset + s.len()
        } else {
            0
        }
    }
}

/// The number of files among the stretches.
pub open spec fn files_among(s: Seq<DiskSpace>) -> int
    decreases s.len(),
{
    if s.len() == 0 {
        0
    } else {
        files_among(s.drop_last()) + if s.last() is File {
            1int
        } else {
            0int
        }
    }
}

/// The weight of the stretches up to and with place `i`.
pub open spec fn unsettled(files: Seq<DiskSpace>, i: int) -> int {
    if i < 0 {
        0
    } else if i + 1 >= files.len() {
        weight_at(files, 0)
    } else {
        weight_at(files.subrange(0, i + 1), 0)
    }
}

/// A weight is not below zero, and there are no more files than stretches.
pub proof fn lemma_weight_bounds(s: Seq<DiskSpace>, offset: int)
    requires
        offset >= 0,
    ensures
        weight_at(s, offset) >= 0,
        0 <= files_among(s) <= s.len(),
        weight_at(s, offset + 1) == weight_at(s, offset) + files_among(s),
    decreases s.len(),
{
    if s.len() > 0 {
        lemma_weight_bounds(s.drop_last(), offset);
    }
}

/// The weight of one stretch is its place, for a file, and nothing for
/// free space.
pub proof fn lemma_weight_single(x: DiskSpace, offset: int)
    ensures
        weight_at(seq![x], offset) == (if x is File {
            offset + 1
        } else {
            0
        }),
{
    assert(seq![x].drop_last() =~= Seq::<DiskSpace>::empty());
    assert(weight_at(seq![x].drop_last(), offset) == 0);
}

/// The weight of stretches in a row is the weight of the first and the
/// weight of the others behind them.
pub proof fn lemma_weight_concat(a: Seq<DiskSpace>, b: Seq<DiskSpace>, offset: int)
    ensures
        weight_at(a + b, offset) == weight_at(a, offset) + weight_at(b, offset + a.len()),
    decreases b.len(),
{
    if b.len() == 0 {
        assert(a + b =~= a);
    } else {
        lemma_weight_concat(a, b.drop_last(), offset);
        assert((a + b).drop_last() =~= a + b.drop_last());
    }
}

/// The weight of the first stretches is no more than the weight of all.
pub proof fn lemma_weight_prefix(s: Seq<DiskSpace>, k: int)
    requires
        0 <= k <= s.len(),
    ensures
        0 <= weight_at(s.subrange(0, k), 0) <= weight_at(s, 0),
    decreases s.len() - k,
{
    lemma_weight_bounds(s.subrange(0, k), 0);
    if k < s.len() {
        lemma_weight_prefix(s, k + 1);
        assert(s.subrange(0, k + 1).drop_last() =~= s.subrange(0, k));
    } else {
        assert(s.subrange(0, k) =~= s);
    }
}

/// The weight up to a place is no more than the weight up to a later one,
/// and no more than the weight of a longer row that starts the same.
pub proof fn lemma_unsettled_grows(shorter: Seq<DiskSpace>, i: int, files: Seq<DiskSpace>, j: int)
    requires
        i <= j,
        shorter.len() <= files.len(),
        shorter =~= files.subrange(0, shorter.len() as int),
    ensures
        0 <= unsettled(shorter, i) <= unsettled(files, j),
{
    let a = if i < 0 {
        0int
    } else if i + 1 >= shorter.len() {
        shorter.len() as int
    } else {
        i + 1
    };
    let b = if j < 0 {
        0int
    } else if j + 1 >= files.len() {
        files.len() as int
    } else {
        j + 1
    };
    assert(shorter.subrange(0, a) =~= files.subrange(0, a));
    assert(shorter.subrange(0, shorter.len() as int) =~= shorter);
    assert(files.subrange(0, files.len() as int) =~= files);
    assert(files.subrange(0, 0) =~= Seq::<DiskSpace>::empty());
    assert(shorter.subrange(0, 0) =~= Seq::<DiskSpace>::empty());
    assert(unsettled(shorter, i) == weight_at(files.subrange(0, a), 0));
    assert(unsettled(files, j) == weight_at(files.subrange(0, b), 0));
    assert(files.subrange(0, b).subrange(0, a) =~= files.subrange(0, a));
    lemma_weight_prefix(files.subrange(0, b), a);
}

/// The stretches after the free space at their end has been dropped, and
/// the place `i` moved one to the front for each stretch dropped; nothing
/// where the place would move before the first.
pub open spec fn drop_free_tail(files: Seq<DiskSpace>, i: int) -> Option<(Seq<DiskSpace>, int)>
    decreases files.len(),
{
    if files.len() > 0 && files.last() is Free {
        if i <= 0 {
            None
        } else {
            drop_free_tail(files.drop_last(), i - 1)
        }
    } else {
        Some((files, i))
    }
}

/// Dropping free space at the end does not add to the weight up to the
/// place.
pub proof fn lemma_drop_free_tail(files: Seq<DiskSpace>, i: int)
    ensures
        match drop_free_tail(files, i) {
            Some((rest, at)) => {
                &&& 0 <= unsettled(rest, at) <= unsettled(files, i)
                &&& at <= i
                &&& rest.len() <= files.len()
                &&& rest.len() - at == files.len() - i
                &&& i >= 0 ==> at >= 0
            },
            None => true,
        },
    decreases files.len(),
{
    if files.len() > 0 && files.last() is Free {
        if i > 0 {
            lemma_drop_free_tail(files.drop_last(), i - 1);
            lemma_unsettled_grows(files.drop_last(), i - 1, files, i);
        }
    } else {
        lemma_unsettled_grows(files, i, files, i);
        assert(files.subrange(0, files.len() as int) =~= files);
    }
}

/// The stretches after the file at place `i` has been moved into the free
/// space at place `pos`: the file leaves free space of its length behind,
/// and the free space that takes it in stands behind it, shorter by the
/// file's length.
pub open spec fn move_file(files: Seq<DiskSpace>, i: int, pos: int) -> Seq<DiskSpace> {
    files.update(i, DiskSpace::Free { length: files[i].len() }).insert(pos, files[i]).update(
        pos + 1,
        DiskSpace::Free { length: (files[pos].len() - files[i].len()) as u32 },
    )
}

/// Moving a file to the front takes at least one off the weight.
pub proof fn lemma_move_file(files: Seq<DiskSpace>, i: int, pos: int)
    requires
        0 <= pos,
        pos + 1 < i < files.len(),
        files[i] is File,
        files[pos] is Free,
    ensures
        unsettled(move_file(files, i, pos), i + 1) < unsettled(files, i),
        move_file(files, i, pos).len() == files.len() + 1,
{
    let file = files[i];
    let moved = move_file(files, i, pos);
    let head = files.subrange(0, pos);
    let mid = files.subrange(pos + 1, i);
    let gap = files[pos];
    let left = DiskSpace::Free { length: file.len() };
    let less = DiskSpace::Free { length: (gap.len() - file.len()) as u32 };
    let old_part = files.subrange(0, i + 1);
    let new_part = moved.subrange(0, i + 2);
    assert(old_part =~= ((head + seq![gap]) + mid) + seq![file]);
    assert(new_part =~= (((head + seq![file]) + seq![less]) + mid) + seq![left]);
    lemma_weight_concat((head + seq![gap]) + mid, seq![file], 0);
    lemma_weight_concat(head + seq![gap], mid, 0);
    lemma_weight_concat(head, seq![gap], 0);
    lemma_weight_concat(((head + seq![file]) + seq![less]) + mid, seq![left], 0);
    lemma_weight_concat((head + seq![file]) + seq![less], mid, 0);
    lemma_weight_concat(head + seq![file], seq![less], 0);
    lemma_weight_concat(head, seq![file], 0);
    lemma_weight_bounds(mid, pos + 1);
    lemma_weight_single(file, pos);
    lemma_weight_single(file, i);
    lemma_weight_single(gap, pos);
    lemma_weight_single(less, pos + 1);
    lemma_weight_single(left, i + 1);
    if i + 2 >= moved.len() {
        assert(new_part =~= moved);
    }
    if i + 1 >= files.len() {
        assert(old_part =~= files);
    }
}

/// The first place before the place just before `current` where free space
/// is long enough for `file`, if there is such a place.
pub open spec fn first_fit(files: Seq<DiskSpace>, file: DiskSpace, current: int) -> Option<int> {
    if exists|at: int| fits_at(files, file, current, at) {
        Some(
            choose|at: int|
                fits_at(files, file, current, at) && forall|j: int|
                    0 <= j < at ==> !fits_at(files, file, current, j),
        )
    } else {
        None
    }
}

/// Among the places where free space is long enough, one is first.
pub proof fn lemma_least_fit(files: Seq<DiskSpace>, file: DiskSpace, current: int, at: int)
    requires
        fits_at(files, file, current, at),
    ensures
        exists|least: int|
            fits_at(files, file, current, least) && forall|j: int|
                0 <= j < least ==> !fits_at(files, file, current, j),
    decreases at,
{
    if exists|j: int| 0 <= j < at && fits_at(files, file, current, j) {
        let j = choose|j: int| 0 <= j < at && fits_at(files, file, current, j);
        lemma_least_fit(files, file, current, j);
    }
}

/// `first_fit` names the first place where free space is long enough, or
/// nothing where there is none.
pub proof fn lemma_first_fit(files: Seq<DiskSpace>, file: DiskSpace, current: int)
    ensures
        match first_fit(files, file, current) {
            Some(at) => fits_at(files, file, current, at) && forall|j: int|
                0 <= j < at ==> !fits_at(files, file, current, j),
            None => forall|j: int| !fits_at(files, file, current, j),
        },
{
    if exists|at: int| fits_at(files, file, current, at) {
        let at = choose|at: int| fits_at(files, file, current, at);
        lemma_least_fit(files, file, current, at);
    }
}

/// One turn of the compaction at place `i`: free space is passed over; a
/// file is moved into the first free space before it that is long enough,
/// if there is one; then free space at the end is dropped. Gives the
/// stretches and the place to go on with, or nothing where the place would
/// move before the first.
pub open spec fn compact_step(files: Seq<DiskSpace>, i: int) -> Option<(Seq<DiskSpace>, int)> {
    if i < 0 || i >= files.len() {
        None
    } else if files[i] is Free {
        Some((files, i - 1))
    } else {
        match first_fit(files, files[i], i) {
            Some(pos) => drop_free_tail(move_file(files, i, pos), i + 1),
            None => drop_free_tail(files, i - 1),
        }
    }
}

/// A turn of the compaction at a place behind the first goes on at a place
/// not before the first, and with less weight up to the place or, with the
/// same weight, at a place before.
pub proof fn lemma_compact_step(files: Seq<DiskSpace>, i: int)
    requires
        0 < i < files.len(),
    ensures
        match compact_step(files, i) {
            Some((rest, at)) => {
                &&& 0 <= at < rest.len()
                &&& rest.len() <= files.len() + 1
                &&& 0 <= unsettled(rest, at)
                &&& unsettled(rest, at) < unsettled(files, i) || (unsettled(rest, at) == unsettled(
                    files,
                    i,
                ) && at < i)
            },
            None => true,
        },
{
    lemma_unsettled_grows(files, i, files, i);
    if files[i] is Free {
        lemma_unsettled_grows(files, i - 1, files, i);
    } else {
        lemma_first_fit(files, files[i], i);
        match first_fit(files, files[i], i) {
            Some(pos) => {
                let moved = move_file(files, i, pos);
                lemma_move_file(files, i, pos);
                lemma_drop_free_tail(moved, i + 1);
            },
            None => {
                lemma_drop_free_tail(files, i - 1);
                lemma_unsettled_grows(files, i - 1, files, i);
            },
        }
    }
}

/// The stretches after the compaction has gone on from place `i` to the
/// first place, or nothing where it cannot go on.
pub open spec fn compacted_from(files: Seq<DiskSpace>, i: int) -> Option<Seq<DiskSpace>>
    decreases unsettled(files, i), i,
    via compacted_from_ends
{
    if i == 0 {
        Some(files)
    } else if i < 0 || i >= files.len() {
        None
    } else {
        match compact_step(files, i) {
            Some((rest, at)) => compacted_from(rest, at),
            None => None,
        }
    }
}

#[via_fn]
proof fn compacted_from_ends(files: Seq<DiskSpace>, i: int) {
    if 0 < i < files.len() {
        lemma_compact_step(files, i);
    }
}

/// Drops the free space at the end of the stretches and moves the place
/// `i` one to the front for each stretch dropped. Tells whether the place
/// could be moved each time; where it could not, nothing is said of the
/// stretches.
fn pop_free_tail(files: &mut Vec<DiskSpace>, i: &mut usize) -> (done: bool)
    ensures
        match drop_free_tail(old(files)@, *old(i) as int) {
            Some((rest, at)) => done && final(files)@ == rest && *final(i) == at,
            None => !done,
        },
{
    while files.len() > 0 && files[files.len() - 1].is_free_space()
        invariant
            drop_free_tail(files@, *i as int) == drop_free_tail(old(files)@, *old(i) as int),
        decreases files@.len(),
    {
        proof {
            assert(files@.last() == files@[files@.len() - 1]);
        }
        if *i == 0 {
            proof {
                assert(drop_free_tail(files@, 0) is None);
            }
            return false;
        }
        let ghost longer = files@;
        files.pop();
        *i = *i - 1;
        proof {
            assert(files@ =~= longer.drop_last());
        }
    }
    proof {
        if files@.len() > 0 {
            assert(files@.last() == files@[files@.len() - 1]);
        }
    }
    true
}

/// Moves whole files to the front of the disk: from the last stretch to
/// the second, each file is moved into the first free space before the
/// stretch before it that is long enough. Returns nothing where the place
/// that is looked at cannot be moved on.
pub fn compact_files(files: Vec<DiskSpace>) -> (r: Option<Vec<DiskSpace>>)
    ensures
        match r {
            Some(compacted) => files@.len() > 0 && compacted_from(files@, files@.len() - 1) == Some(
                compacted@,
            ),
            None => files@.len() == 0 || compacted_from(files@, files@.len() - 1) is None,
        },
{
    if files.len() == 0 {
        return None;
    }
    let mut i: usize = files.len() - 1;
    let mut disk = files;
    while i != 0
        invariant
            files@.len() > 0,
            i < disk@.len(),
            compacted_from(disk@, i as int) == compacted_from(files@, files@.len() - 1),
        decreases unsettled(disk@, i as int), i,
    {
        let file = disk[i];
        let ghost before = disk@;
        let ghost place = i as int;
        proof {
            lemma_compact_step(before, place);
            lemma_first_fit(before, file, place);
        }
        if file.is_free_space() {
            i -= 1;
            continue ;
        }
        match first_possible_space(&disk, &file, i) {
            Some(possible_pos) => {
                let room = disk[possible_pos].length();
                disk.set(i, DiskSpace::Free { length: file.length() });
                disk.insert(possible_pos, file);
                let longer = disk.len();
                assert(i < longer);
                i += 1;
                disk.set(possible_pos + 1, DiskSpace::Free { length: room - file.length() });
                proof {
                    assert(first_fit(before, file, place) == Some(possible_pos as int));
                    assert(disk@ =~= move_file(before, place, possible_pos as int));
                }
            },
            None => {
                i -= 1;
                proof {
                    assert(first_fit(before, file, place) is None);
                }
            },
        }
        let ghost moved = disk@;
        let ghost at = i as int;
        proof {
            assert(compact_step(before, place) == drop_free_tail(moved, at));
            lemma_drop_free_tail(moved, at);
        }
        if !pop_free_tail(&mut disk, &mut i) {
            proof {
                assert(compacted_from(before, place) is None);
            }
            return None;
        }
        proof {
            assert(compacted_from(before, place) == compacted_from(disk@, i as int));
        }
    }
    Some(disk)
}

/// The checksum of the disk of a disk map after whole files have been
/// moved to the front; nothing where the files cannot be moved.
pub fn part2(numbers: &Vec<u32>) -> (r: Option<u128>)
    requires
        forall|compacted: Seq<DiskSpace>|
            compacted_from(disk_space_of(numbers@), numbers@.len() - 1) == Some(compacted)
                ==> disk_checksum(compacted) <= u128::MAX,
    ensures
        match r {
            Some(sum) => numbers@.len() > 0 && match compacted_from(
                disk_space_of(numbers@),
                numbers@.len() - 1,
            ) {
                Some(compacted) => sum == disk_checksum(compacted),
                None => false,
            },
            None => numbers@.len() == 0 || compacted_from(
                disk_space_of(numbers@),
                numbers@.len() - 1,
            ) is None,
        },
{
    let files = load_disk_space(numbers);
    match compact_files(files) {
        Some(compacted) => Some(checksum(&compacted)),
        None => None,
    }
}

/// The character of a digit from zero to nine.
pub open spec fn digit_char(d: nat) -> char {
    (d + '0' as u32) as char
}

/// The decimal digits of a number, the highest first.
pub open spec fn decimal(n: nat) -> Seq<char>
    decreases n,
{
    if n < 10 {
        seq![digit_char(n)]
    } else {
        decimal(n / 10).push(digit_char(n % 10))
    }
}

/// The decimal digits of a number, the highest first.
pub fn decimal_of(n: usize) -> (digits: Vec<char>)
    ensures
        digits@ == decimal(n as nat),
{
    let mut backwards: Vec<char> = Vec::new();
    let mut rest = n;
    while rest >= 10
        invariant
            decimal(n as nat) == decimal(rest as nat) + backwards@.reverse(),
        decreases rest,
    {
        let d = (rest % 10) as u8;
        let ghost held = backwards@;
        backwards.push((d + 48) as char);
        proof {
            assert(((d + 48) as char) == digit_char((rest % 10) as nat));
            assert(backwards@.reverse() =~= seq![digit_char((rest % 10) as nat)] + held.reverse());
            assert(decimal(rest as nat) + held.reverse() =~= decimal((rest / 10) as nat)
                + backwards@.reverse());
        }
        rest = rest / 10;
    }
    let mut digits: Vec<char> = Vec::new();
    digits.push((rest as u8 + 48) as char);
    proof {
        assert(((rest as u8 + 48) as char) == digit_char(rest as nat));
        assert(digits@ =~= decimal(rest as nat));
    }
    let ghost all = backwards@;
    while backwards.len() > 0
        invariant
            backwards@.len() <= all.len(),
            backwards@ == all.subrange(0, backwards@.len() as int),
            digits@ == decimal(rest as nat) + all.subrange(
                backwards@.len() as int,
                all.len() as int,
            ).reverse(),
        decreases backwards@.len(),
    {
        let ghost k = backwards@.len() as int;
        match backwards.pop() {
            Some(c) => {
                let ghost held = digits@;
                digits.push(c);
                proof {
                    assert(c == all[k - 1]);
                    assert(all.subrange(k - 1, all.len() as int).reverse() =~= all.subrange(
                        k,
                        all.len() as int,
                    ).reverse().push(c));
                    assert(backwards@ =~= all.subrange(0, k - 1));
                    assert(digits@ =~= decimal(rest as nat) + all.subrange(
                        k - 1,
                        all.len() as int,
                    ).reverse());
                }
            },
            None => {},
        }
    }
    proof {
        assert(all.subrange(0, all.len() as int) =~= all);
    }
    digits
}

/// The text `piece` written `times` times in a row.
pub open spec fn repeated(piece: Seq<char>, times: nat) -> Seq<char>
    decreases times,
{
    if times == 0 {
        Seq::empty()
    } else {
        repeated(piece, (times - 1) as nat) + piece
    }
}

/// The picture of a stretch: for each block of a file the file's number,
/// for each block of free space a dot.
pub open spec fn picture_of(space: DiskSpace) -> Seq<char> {
    match space {
        DiskSpace::File { id, length } => repeated(decimal(id as nat), length as nat),
        DiskSpace::Free { length } => repeated(seq!['.'], length as nat),
    }
}

/// The picture of the stretches in a row.
pub open spec fn picture(files: Seq<DiskSpace>) -> Seq<char>
    decreases files.len(),
{
    if files.len() == 0 {
        Seq::empty()
    } else {
        picture(files.drop_last()) + picture_of(files.last())
    }
}

/// Writes `piece` at the end of `buffer`, `times` times.
fn push_repeated(buffer: &mut Vec<char>, piece: &Vec<char>, times: u32)
    ensures
        final(buffer)@ == old(buffer)@ + repeated(piece@, times as nat),
{
    let mut k: u32 = 0;
    proof {
        assert(buffer@ + Seq::<char>::empty() =~= buffer@);
    }
    while k < times
        invariant
            k <= times,
            buffer@ == old(buffer)@ + repeated(piece@, k as nat),
        decreases times - k,
    {
        let ghost before = buffer@;
        let mut j: usize = 0;
        while j < piece.len()
            invariant
                j <= piece.len(),
                buffer@ == before + piece@.subrange(0, j as int),
            decreases piece.len() - j,
        {
            buffer.push(piece[j]);
            proof {
                assert(buffer@ =~= before + piece@.subrange(0, j + 1));
            }
            j += 1;
        }
        proof {
            assert(piece@.subrange(0, j as int) =~= piece@);
            assert(buffer@ =~= old(buffer)@ + repeated(piece@, (k + 1) as nat));
        }
        k += 1;
    }
}

/// The picture of the disk: for each block of a file the file's number,
/// for each block of free space a dot.
pub fn print_files(files: &Vec<DiskSpace>) -> (buffer: Vec<char>)
    ensures
        buffer@ == picture(files@),
{
    let mut buffer: Vec<char> = Vec::new();
    let mut dot: Vec<char> = Vec::new();
    dot.push('.');
    let mut i: usize = 0;
    while i < files.len()
        invariant
            i <= files.len(),
            dot@ == seq!['.'],
            buffer@ == picture(files@.subrange(0, i as int)),
        decreases files.len() - i,
    {
        proof {
            assert(files@.subrange(0, i + 1).drop_last() =~= files@.subrange(0, i as int));
        }
        match files[i] {
            DiskSpace::File { id, length } => {
                let name = decimal_of(id);
                push_repeated(&mut buffer, &name, length);
            },
            DiskSpace::Free { length } => {
                push_repeated(&mut buffer, &dot, length);
            },
        }
        i += 1;
    }
    proof {
        assert(files@.subrange(0, i as int) =~= files@);
    }
    buffer
}

} // verus!
