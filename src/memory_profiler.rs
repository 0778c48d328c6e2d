//! A log of allocator statistics, sampled around the steps of a sweep and
//! written out as tab-separated text ordered by sample id.
use itertools::Itertools;
use jemalloc_ctl::{epoch, stats};
use vstd::prelude::*;
use vstd::string::StringExecFns;

verus! {

#[verifier::external_type_specification]
#[verifier::external_body]
pub struct ExStatsError(jemalloc_ctl::Error);

/// Relies on jemalloc_ctl::epoch::advance: makes jemalloc refresh the
/// statistics it caches, or fails with the mallctl error.
#[verifier::external_body]
fn advance_epoch() -> (r: Result<u64, jemalloc_ctl::Error>) {
    epoch::advance()
}

/// Relies on jemalloc_ctl::stats::allocated::read: the bytes the
/// application holds allocated, as of the last epoch.
#[verifier::external_body]
fn read_allocated() -> (r: Result<usize, jemalloc_ctl::Error>) {
    stats::allocated::read()
}

/// Relies on jemalloc_ctl::stats::resident::read: the bytes of resident
/// pages the allocator maps, as of the last epoch.
#[verifier::external_body]
fn read_resident() -> (r: Result<usize, jemalloc_ctl::Error>) {
    stats::resident::read()
}

/// Relies on Vec::capacity: how many samples the log holds room for, never
/// fewer than it holds.
#[verifier::external_body]
fn log_capacity(samples: &Vec<AllocationData>) -> (r: usize)
    ensures
        r >= samples@.len(),
{
    samples.capacity()
}

/// Relies on itertools::Itertools::sorted_by_key (a stable sort of the
/// items): the same samples, ordered by id; a log already in id order comes
/// back as it was.
#[verifier::external_body]
fn sorted_by_id(samples: &Vec<AllocationData>) -> (r: Vec<AllocationData>)
    ensures
        r@.to_multiset() == samples@.to_multiset(),
        forall|i: int, j: int| 0 <= i < j < r@.len() ==> r@[i].id <= r@[j].id,
        (forall|i: int, j: int| 0 <= i < j < samples@.len() ==> samples@[i].id <= samples@[j].id)
            ==> r@ == samples@,
{
    samples.iter().copied().sorted_by_key(|a| a.id).collect()
}

/// The decimal digits of `n`, most significant first.
pub open spec fn decimal(n: nat) -> Seq<char>
    decreases n,
{
    if n < 10 {
        seq![digit_char(n)]
    } else {
        decimal(n / 10).push(digit_char(n % 10))
    }
}

pub open spec fn digit_char(d: nat) -> char {
    (('0' as u8) + (d as u8)) as char
}

/// Relies on `ToString` for `usize`: the decimal digits of the number.
#[verifier::external_body]
fn decimal_string(n: usize) -> (r: String)
    ensures
        r@ == decimal(n as nat),
{
    n.to_string()
}

/// Why a sample could not be taken.
#[derive(Clone, Copy, Debug, PartialEq, Eq)]
pub enum ProfileError {
    /// The allocator's statistics could not be refreshed or read.
    Stats,
}

/// One sample of the allocator's statistics.
#[derive(Clone, Copy, Debug, PartialEq, Eq)]
pub struct AllocationData {
    /// Position of the sample in the log.
    pub id: usize,
    /// Bytes allocated by the process.
    pub allocated: usize,
    /// Bytes of resident pages.
    pub resident: usize,
    /// Bytes the log itself occupies, to subtract from the other two.
    pub correction: usize,
}

/// The header line of a dump.
pub open spec fn header_line() -> Seq<char> {
    "id\tallocated\tresident\tcorrection"@
}

/// The line of one sample: its four fields, tab-separated.
pub open spec fn row_line(a: AllocationData) -> Seq<char> {
    decimal(a.id as nat) + seq!['\t'] + decimal(a.allocated as nat) + seq!['\t'] + decimal(
        a.resident as nat,
    ) + seq!['\t'] + decimal(a.correction as nat)
}

/// The lines of a dump of `samples`, without their line ends.
pub open spec fn dump_lines(samples: Seq<AllocationData>) -> Seq<Seq<char>> {
    seq![header_line()] + samples.map_values(|a: AllocationData| row_line(a))
}

/// Lines, each followed by a line end.
pub open spec fn joined(lines: Seq<Seq<char>>) -> Seq<char>
    decreases lines.len(),
{
    if lines.len() == 0 {
        Seq::empty()
    } else {
        joined(lines.drop_last()) + lines.last() + seq!['\n']
    }
}

/// The bytes a log of `capacity` samples occupies, `usize::MAX` if that
/// does not fit.
pub open spec fn log_bytes(capacity: nat) -> usize {
    if capacity * vstd::layout::size_of::<AllocationData>() > usize::MAX {
        usize::MAX
    } else {
        (capacity * vstd::layout::size_of::<AllocationData>()) as usize
    }
}

/// The samples of a run, in the order they were taken.
pub struct ProfileLog {
    samples: Vec<AllocationData>,
}

impl ProfileLog {
    /// The samples taken so far.
    pub closed spec fn view(&self) -> Seq<AllocationData> {
        self.samples@
    }

    /// Each sample's id is its position.
    pub open spec fn valid(&self) -> bool {
        forall|k: int| 0 <= k < self.view().len() ==> (#[trigger] self.view()[k]).id == k
    }

    /// An empty log.
    pub fn new() -> (r: ProfileLog)
        ensures
            r.valid(),
            r.view() == Seq::<AllocationData>::empty(),
    {
        ProfileLog { samples: Vec::new() }
    }

    pub fn len(&self) -> (r: usize)
        ensures
            r == self.view().len(),
    {
        self.samples.len()
    }

    /// The sample with id `k`.
    pub fn get(&self, k: usize) -> (r: Option<AllocationData>)
        ensures
            k < self.view().len() ==> r == Some(self.view()[k as int]),
            k >= self.view().len() ==> r is None,
    {
        if k < self.samples.len() {
            Some(self.samples[k])
        } else {
            None
        }
    }

    /// Appends a sample of the given statistics under the next id.
    pub fn record(&mut self, allocated: usize, resident: usize, correction: usize)
        requires
            old(self).valid(),
            old(self).view().len() < usize::MAX,
        ensures
            final(self).valid(),
            final(self).view() == old(self).view().push(
                AllocationData {
                    id: old(self).view().len() as usize,
                    allocated,
                    resident,
                    correction,
                },
            ),
    {
        let id = self.samples.len();
        self.samples.push(AllocationData { id, allocated, resident, correction });
    }
}

impl AllocationData {
    /// The bytes a log with room for `capacity` samples occupies.
    pub fn correction_for(capacity: usize) -> (r: usize)
        ensures
            r == log_bytes(capacity as nat),
    {
        let size = std::mem::size_of::<AllocationData>();
        match capacity.checked_mul(size) {
            Some(bytes) => bytes,
            None => usize::MAX,
        }
    }

    /// Refreshes the allocator's statistics and reads them into a sample that
    /// would take the next id of `log`. The correction is the size of the
    /// log's storage as it stands.
    pub fn get_data(log: &ProfileLog) -> (r: Result<AllocationData, ProfileError>)
        ensures
            r matches Ok(a) ==> a.id == log.view().len() && a.correction >= log_bytes(
                log.view().len(),
            ),
    {
        if advance_epoch().is_err() {
            return Err(ProfileError::Stats);
        }
        let allocated = match read_allocated() {
            Ok(v) => v,
            Err(_) => {
                return Err(ProfileError::Stats);
            },
        };
        let resident = match read_resident() {
            Ok(v) => v,
            Err(_) => {
                return Err(ProfileError::Stats);
            },
        };
        let capacity = log_capacity(&log.samples);
        let correction = AllocationData::correction_for(capacity);
        proof {
            vstd::arithmetic::mul::lemma_mul_inequality(
                log.view().len() as int,
                capacity as int,
                vstd::layout::size_of::<AllocationData>() as int,
            );
        }
        Ok(AllocationData { id: log.samples.len(), allocated, resident, correction })
    }

    /// Takes a sample and appends it to `log`; on failure the log is left as
    /// it was.
    pub fn collect_data(log: &mut ProfileLog) -> (r: Result<(), ProfileError>)
        requires
            old(log).valid(),
            old(log).view().len() < usize::MAX,
        ensures
            final(log).valid(),
            r is Ok ==> final(log).view().len() == old(log).view().len() + 1
                && final(log).view().drop_last() == old(log).view() && final(log).view().last().id
                == old(log).view().len() && final(log).view().last().correction >= log_bytes(
                old(log).view().len(),
            ),
            r is Err ==> final(log).view() == old(log).view(),
    {
        match AllocationData::get_data(log) {
            Ok(a) => {
                log.record(a.allocated, a.resident, a.correction);
                assert(log.view().drop_last() =~= old(log).view());
                Ok(())
            },
            Err(e) => Err(e),
        }
    }

    /// The log as tab-separated text: a header line, then one line per
    /// sample in ascending id order.
    pub fn dump_data(log: &ProfileLog) -> (r: String)
        requires
            log.valid(),
        ensures
            r@ == joined(dump_lines(log.view())),
    {
        let sorted = sorted_by_id(&log.samples);
        assert(sorted@ == log.view());
        let mut out = String::from_str("id\tallocated\tresident\tcorrection\n");
        proof {
            reveal_strlit("id\tallocated\tresident\tcorrection\n");
            reveal_strlit("id\tallocated\tresident\tcorrection");
            assert(out@ =~= joined(dump_lines(sorted@.subrange(0, 0)))) by {
                let l = dump_lines(sorted@.subrange(0, 0));
                assert(l =~= seq![header_line()]);
                assert(l.drop_last() =~= Seq::<Seq<char>>::empty());
                assert(joined(Seq::<Seq<char>>::empty()) == Seq::<char>::empty());
                assert(out@ =~= header_line() + seq!['\n']);
            }
        }
        let mut k: usize = 0;
        while k < sorted.len()
            invariant
                k <= sorted@.len(),
                out@ == joined(dump_lines(sorted@.subrange(0, k as int))),
            decreases sorted@.len() - k,
        {
            let a = sorted[k];
            let ghost before = out@;
            out.append(decimal_string(a.id).as_str());
            out.append("\t");
            out.append(decimal_string(a.allocated).as_str());
            out.append("\t");
            out.append(decimal_string(a.resident).as_str());
            out.append("\t");
            out.append(decimal_string(a.correction).as_str());
            out.append("\n");
            proof {
                reveal_strlit("\t");
                reveal_strlit("\n");
                let l = dump_lines(sorted@.subrange(0, k + 1));
                assert(l.drop_last() =~= dump_lines(sorted@.subrange(0, k as int)));
                assert(l.last() == row_line(a));
                assert(out@ =~= before + row_line(a) + seq!['\n']);
            }
            k = k + 1;
        }
        assert(sorted@.subrange(0, sorted@.len() as int) =~= sorted@);
        out
    }
}

proof fn lemma_decimal_has_no_line_end(n: nat)
    ensures
        forall|k: int| 0 <= k < decimal(n).len() ==> #[trigger] decimal(n)[k] != '\n',
    decreases n,
{
    if n >= 10 {
        lemma_decimal_has_no_line_end(n / 10);
        assert(decimal(n) == decimal(n / 10).push(digit_char(n % 10)));
    }
}

/// A dump holds exactly one line more than the log holds samples: the
/// header, then the sample with id 0, id 1, and so on in ascending order;
/// no line holds a line end of its own, so the text splits back into
/// exactly these lines.
pub proof fn lemma_dump_shape(log: ProfileLog)
    requires
        log.valid(),
    ensures
        dump_lines(log.view()).len() == log.view().len() + 1,
        dump_lines(log.view())[0] == header_line(),
        forall|k: int|
            0 <= k < log.view().len() ==> dump_lines(log.view())[k + 1] == row_line(
                #[trigger] log.view()[k],
            ) && log.view()[k].id == k,
        forall|k: int, c: int|
            0 <= k < dump_lines(log.view()).len() && 0 <= c < dump_lines(log.view())[k].len()
                ==> #[trigger] dump_lines(log.view())[k][c] != '\n',
{
    let lines = dump_lines(log.view());
    reveal_strlit("id\tallocated\tresident\tcorrection");
    assert forall|k: int, c: int| 0 <= k < lines.len() && 0 <= c < lines[k].len() implies #[trigger] lines[k][c]
        != '\n' by {
        if k > 0 {
            let a = log.view()[k - 1];
            assert(lines[k] == row_line(a));
            lemma_decimal_has_no_line_end(a.id as nat);
            lemma_decimal_has_no_line_end(a.allocated as nat);
            lemma_decimal_has_no_line_end(a.resident as nat);
            lemma_decimal_has_no_line_end(a.correction as nat);
        }
    }
    assert forall|k: int| 0 <= k < log.view().len() implies lines[k + 1] == row_line(
        #[trigger] log.view()[k],
    ) && log.view()[k].id == k by {}
}

} // verus!
