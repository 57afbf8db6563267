//! Attribute content: data runs and the readers over them.
//!
//! A non-resident attribute stores its bytes in runs: extents scattered
//! over the volume. `load_runs` turns decoded `(offset, length)` pairs
//! into a run list whose runs partition the logical range `[0, size)`
//! contiguously; `RunReader` presents that list over a volume handle as
//! one seekable stream; `ContentReader` is the union of that reader with
//! the in-memory reader over resident content.
use vstd::prelude::*;

use crate::device::ByteSource;
use crate::device::MemDevice;
use crate::device::SeekFrom;
use crate::device::read_amount;
use crate::device::read_start;
use crate::error::Error;

verus! {

/// One extent of a non-resident attribute, in byte units.
#[derive(Debug, Clone, Copy, PartialEq, Eq, Structural)]
pub struct DataRun {
    /// Absolute byte offset on the volume where the run begins.
    pub offset: u64,
    /// Logical offset within the attribute where this run's bytes stand.
    pub virt_offset: u64,
    /// Length of the run in bytes.
    pub len: u64,
}

/// A well-formed run list: the virtual offsets start at 0 and chain, so
/// the runs partition `[0, runs_total(runs))` contiguously in virtual
/// order, and every run stays 64-bit addressable.
pub open spec fn runs_wf(runs: Seq<DataRun>) -> bool {
    &&& runs.len() > 0
    &&& runs[0].virt_offset == 0
    &&& forall|i: int|
        1 <= i < runs.len() ==> (#[trigger] runs[i].virt_offset) == runs[i - 1].virt_offset
            + runs[i - 1].len
    &&& runs.last().virt_offset + runs.last().len <= u64::MAX
    &&& forall|i: int|
        0 <= i < runs.len() ==> (#[trigger] runs[i].offset) + runs[i].len <= u64::MAX
}

/// The total number of logical bytes the run list covers.
pub open spec fn runs_total(runs: Seq<DataRun>) -> int {
    if runs.len() == 0 {
        0
    } else {
        runs.last().virt_offset + runs.last().len
    }
}

/// The sum of the run lengths.
pub open spec fn sum_of_lens(runs: Seq<DataRun>) -> int
    decreases runs.len(),
{
    if runs.len() == 0 {
        0
    } else {
        sum_of_lens(runs.drop_last()) + runs.last().len
    }
}

/// Every run lies within the volume content `c`.
pub open spec fn runs_in(runs: Seq<DataRun>, c: Seq<u8>) -> bool {
    forall|i: int| 0 <= i < runs.len() ==> (#[trigger] runs[i].offset) + runs[i].len <= c.len()
}

/// The logical content of the run list over volume content `c`: the
/// bytes of each run, concatenated in virtual order.
pub open spec fn runs_content(runs: Seq<DataRun>, c: Seq<u8>) -> Seq<u8>
    decreases runs.len(),
{
    if runs.len() == 0 {
        Seq::empty()
    } else {
        runs_content(runs.drop_last(), c) + c.subrange(
            runs.last().offset as int,
            runs.last().offset + runs.last().len,
        )
    }
}

/// In a well-formed run list the virtual offsets never decrease.
pub proof fn lemma_virt_monotonic(runs: Seq<DataRun>, i: int, j: int)
    requires
        runs_wf(runs),
        0 <= i <= j < runs.len(),
    ensures
        runs[i].virt_offset <= runs[j].virt_offset,
    decreases j - i,
{
    if i < j {
        lemma_virt_monotonic(runs, i, j - 1);
        assert(runs[j].virt_offset == runs[j - 1].virt_offset + runs[j - 1].len);
    }
}

/// Every run ends at or before the total: `virt_offset + len <= total`.
pub proof fn lemma_run_end_le_total(runs: Seq<DataRun>, i: int)
    requires
        runs_wf(runs),
        0 <= i < runs.len(),
    ensures
        runs[i].virt_offset + runs[i].len <= runs_total(runs),
    decreases runs.len() - i,
{
    if i < runs.len() - 1 {
        lemma_run_end_le_total(runs, i + 1);
        assert(runs[i + 1].virt_offset == runs[i].virt_offset + runs[i].len);
    }
}

/// The partition law of a run list: in a well-formed list the virtual
/// offsets chain (`virt_offset[i+1] == virt_offset[i] + len[i]`, starting
/// at 0), so the lengths add up to exactly the covered total.
pub proof fn lemma_runs_partition(runs: Seq<DataRun>)
    requires
        runs_wf(runs),
    ensures
        sum_of_lens(runs) == runs_total(runs),
    decreases runs.len(),
{
    if runs.len() == 1 {
        assert(sum_of_lens(runs.drop_last()) == 0);
    } else {
        let prefix = runs.drop_last();
        assert(runs_wf(prefix)) by {
            assert(prefix.last() == runs[runs.len() - 2]);
            assert(runs.last().virt_offset == prefix.last().virt_offset + prefix.last().len);
        }
        lemma_runs_partition(prefix);
        assert(runs.last().virt_offset == prefix.last().virt_offset + prefix.last().len);
    }
}

/// When every run is non-empty, the virtual offsets are strictly
/// increasing; a run of length 0 repeats the virtual offset of its
/// successor, so the hypothesis cannot be dropped.
pub proof fn lemma_virt_strictly_increasing(runs: Seq<DataRun>, i: int, j: int)
    requires
        runs_wf(runs),
        forall|k: int| 0 <= k < runs.len() ==> (#[trigger] runs[k].len) > 0,
        0 <= i < j < runs.len(),
    ensures
        runs[i].virt_offset < runs[j].virt_offset,
    decreases j - i,
{
    if i + 1 < j {
        lemma_virt_strictly_increasing(runs, i + 1, j);
    }
    assert(runs[i + 1].virt_offset == runs[i].virt_offset + runs[i].len);
}

/// The logical content is as long as the runs' total.
pub proof fn lemma_runs_content_len(runs: Seq<DataRun>, c: Seq<u8>)
    requires
        runs_wf(runs),
        runs_in(runs, c),
    ensures
        runs_content(runs, c).len() == runs_total(runs),
    decreases runs.len(),
{
    if runs.len() == 1 {
        assert(runs_content(runs.drop_last(), c).len() == 0);
    } else {
        let prefix = runs.drop_last();
        assert(runs_wf(prefix)) by {
            assert(prefix.last() == runs[runs.len() - 2]);
            assert(runs.last().virt_offset == prefix.last().virt_offset + prefix.last().len);
        }
        assert(runs_in(prefix, c)) by {
            assert(forall|i: int|
                0 <= i < prefix.len() ==> (#[trigger] prefix[i].offset) == runs[i].offset
                    && prefix[i].len == runs[i].len);
        }
        lemma_runs_content_len(prefix, c);
        assert(runs.last().virt_offset == prefix.last().virt_offset + prefix.last().len);
    }
}

/// The byte of the logical content at a virtual position inside run `i`
/// is the volume byte of that run at the same distance.
pub proof fn lemma_runs_content_index(runs: Seq<DataRun>, c: Seq<u8>, i: int, v: int)
    requires
        runs_wf(runs),
        runs_in(runs, c),
        0 <= i < runs.len(),
        runs[i].virt_offset <= v < runs[i].virt_offset + runs[i].len,
    ensures
        0 <= v < runs_content(runs, c).len(),
        runs_content(runs, c)[v] == c[runs[i].offset + (v - runs[i].virt_offset)],
    decreases runs.len(),
{
    lemma_runs_content_len(runs, c);
    lemma_run_end_le_total(runs, i);
    if i == runs.len() - 1 {
        let prefix = runs.drop_last();
        if runs.len() > 1 {
            assert(runs_wf(prefix)) by {
                assert(prefix.last() == runs[runs.len() - 2]);
                assert(runs.last().virt_offset == prefix.last().virt_offset + prefix.last().len);
            }
            assert(runs_in(prefix, c)) by {
                assert(forall|k: int|
                    0 <= k < prefix.len() ==> (#[trigger] prefix[k].offset) == runs[k].offset
                        && prefix[k].len == runs[k].len);
            }
            lemma_runs_content_len(prefix, c);
            assert(runs_total(prefix) == runs[i].virt_offset);
        } else {
            assert(runs_content(prefix, c).len() == 0);
            assert(runs[i].virt_offset == 0);
        }
    } else {
        let prefix = runs.drop_last();
        assert(runs_wf(prefix)) by {
            assert(prefix.last() == runs[runs.len() - 2]);
            assert(runs.last().virt_offset == prefix.last().virt_offset + prefix.last().len);
        }
        assert(runs_in(prefix, c)) by {
            assert(forall|k: int|
                0 <= k < prefix.len() ==> (#[trigger] prefix[k].offset) == runs[k].offset
                    && prefix[k].len == runs[k].len);
        }
        lemma_runs_content_len(prefix, c);
        assert(prefix[i] == runs[i]);
        lemma_runs_content_index(prefix, c, i, v);
        lemma_run_end_le_total(prefix, i);
    }
}

/// The sum of the lengths of decoded `(offset, length)` pairs.
pub open spec fn pairs_total(pairs: Seq<(u64, u64)>) -> int
    decreases pairs.len(),
{
    if pairs.len() == 0 {
        0
    } else {
        pairs_total(pairs.drop_last()) + pairs.last().1
    }
}

pub proof fn lemma_pairs_total_nonneg(pairs: Seq<(u64, u64)>)
    ensures
        pairs_total(pairs) >= 0,
    decreases pairs.len(),
{
    if pairs.len() > 0 {
        lemma_pairs_total_nonneg(pairs.drop_last());
    }
}

pub proof fn lemma_pairs_total_step(pairs: Seq<(u64, u64)>, i: int)
    requires
        0 <= i < pairs.len(),
    ensures
        pairs_total(pairs.take(i + 1)) == pairs_total(pairs.take(i)) + pairs[i].1,
{
    assert(pairs.take(i + 1).drop_last() =~= pairs.take(i));
    assert(pairs.take(i + 1).last() == pairs[i]);
}

pub proof fn lemma_pairs_total_take_le(pairs: Seq<(u64, u64)>, i: int)
    requires
        0 <= i <= pairs.len(),
    ensures
        pairs_total(pairs.take(i)) <= pairs_total(pairs),
    decreases pairs.len() - i,
{
    if i == pairs.len() {
        assert(pairs.take(i) =~= pairs);
    } else {
        lemma_pairs_total_take_le(pairs, i + 1);
        lemma_pairs_total_step(pairs, i);
    }
}

/// The run list that `load_runs` builds from decoded pairs: offsets are
/// kept, virtual offsets accumulate from 0, and the last length is
/// trimmed so the total equals `size`.
pub open spec fn spec_runs_of(pairs: Seq<(u64, u64)>, size: int) -> Seq<DataRun> {
    Seq::new(
        pairs.len(),
        |i: int|
            DataRun {
                offset: pairs[i].0,
                virt_offset: pairs_total(pairs.take(i)) as u64,
                len: if i == pairs.len() - 1 {
                    (pairs[i].1 - (pairs_total(pairs) - size)) as u64
                } else {
                    pairs[i].1
                },
            },
    )
}

/// Turns decoded `(offset, length)` pairs into a run list: the virtual
/// offsets accumulate from 0, and the last run is trimmed by the slack
/// `sum of lengths - size`, so that the result covers exactly `size`
/// bytes. The decoded pairs overshoot `size` because the on-disk run list
/// is cluster-granular.
pub fn load_runs(pairs: Vec<(u64, u64)>, size: u64) -> (r: Vec<DataRun>)
    requires
        pairs@.len() > 0,
        pairs_total(pairs@) <= u64::MAX,
        size <= pairs_total(pairs@),
        pairs_total(pairs@) - size <= pairs@.last().1,
        forall|i: int|
            0 <= i < pairs@.len() ==> (#[trigger] pairs@[i].0) + pairs@[i].1 <= u64::MAX,
    ensures
        runs_wf(r@),
        runs_total(r@) == size,
        r@.len() == pairs@.len(),
        forall|i: int| 0 <= i < r@.len() ==> (#[trigger] r@[i].offset) == pairs@[i].0,
        forall|i: int| 0 <= i < r@.len() - 1 ==> (#[trigger] r@[i].len) == pairs@[i].1,
        r@.last().len == pairs@.last().1 - (pairs_total(pairs@) - size),
        r@ == spec_runs_of(pairs@, size as int),
{
    let n = pairs.len();
    let mut runs: Vec<DataRun> = Vec::new();
    let mut virt_offset: u64 = 0;
    let mut i: usize = 0;
    while i < n
        invariant
            n == pairs@.len(),
            i <= n,
            runs@.len() == i,
            pairs_total(pairs@) <= u64::MAX,
            virt_offset == pairs_total(pairs@.take(i as int)),
            forall|j: int|
                0 <= j < i ==> (#[trigger] runs@[j]) == (DataRun {
                    offset: pairs@[j].0,
                    virt_offset: pairs_total(pairs@.take(j)) as u64,
                    len: pairs@[j].1,
                }),
            forall|j: int|
                0 <= j < pairs@.len() ==> (#[trigger] pairs@[j].0) + pairs@[j].1 <= u64::MAX,
        decreases n - i,
    {
        proof {
            lemma_pairs_total_take_le(pairs@, i + 1);
            lemma_pairs_total_step(pairs@, i as int);
            lemma_pairs_total_nonneg(pairs@.take(i as int));
            lemma_pairs_total_nonneg(pairs@.take(i + 1));
        }
        let (offset, len) = pairs[i];
        runs.push(DataRun { offset, virt_offset, len });
        virt_offset = virt_offset + len;
        i = i + 1;
    }
    proof {
        assert(pairs@.take(n as int) =~= pairs@);
        assert(pairs@[n - 1] == pairs@.last());
        lemma_pairs_total_step(pairs@, n - 1);
    }
    let slack = virt_offset - size;
    let last = n - 1;
    let ghost runs0 = runs@;
    let mut trimmed = runs[last];
    trimmed.len = trimmed.len - slack;
    runs.set(last, trimmed);
    proof {
        assert(pairs@.take(0) =~= Seq::<(u64, u64)>::empty());
        assert(runs@ == runs0.update(last as int, trimmed));
        assert(runs@[0].virt_offset == 0);
        assert forall|j: int| 1 <= j < runs@.len() implies (#[trigger] runs@[j].virt_offset)
            == runs@[j - 1].virt_offset + runs@[j - 1].len by {
            lemma_pairs_total_step(pairs@, j - 1);
            lemma_pairs_total_nonneg(pairs@.take(j));
            lemma_pairs_total_nonneg(pairs@.take(j - 1));
            lemma_pairs_total_take_le(pairs@, j);
            lemma_pairs_total_take_le(pairs@, j - 1);
            assert(runs@[j].virt_offset == runs0[j].virt_offset);
            assert(runs@[j - 1].virt_offset == runs0[j - 1].virt_offset);
            assert(runs0[j].virt_offset == pairs_total(pairs@.take(j)));
            assert(runs0[j - 1].virt_offset == pairs_total(pairs@.take(j - 1)));
            assert(j - 1 < last ==> runs@[j - 1].len == runs0[j - 1].len);
        }
        assert(runs@.last() == trimmed);
        assert(pairs_total(pairs@) >= 0) by {
            lemma_pairs_total_nonneg(pairs@);
        }
        lemma_pairs_total_nonneg(pairs@.take(n - 1));
        lemma_pairs_total_take_le(pairs@, n - 1);
        assert(trimmed.virt_offset == pairs_total(pairs@.take(n - 1)));
        assert(trimmed.len == pairs@[n - 1].1 - slack);
        assert(runs_total(runs@) == size);
        assert forall|i: int| 0 <= i < runs@.len() implies (#[trigger] runs@[i].offset)
            + runs@[i].len <= u64::MAX by {
            assert(pairs@[i].0 + pairs@[i].1 <= u64::MAX);
            if i < last {
                assert(runs@[i] == runs0[i]);
            }
        }
        assert forall|i: int| 0 <= i < runs@.len() implies (#[trigger] runs@[i]) == spec_runs_of(
            pairs@,
            size as int,
        )[i] by {
            lemma_pairs_total_nonneg(pairs@.take(i));
            lemma_pairs_total_take_le(pairs@, i);
            if i < last {
                assert(runs@[i] == runs0[i]);
            }
        }
        assert(runs@ =~= spec_runs_of(pairs@, size as int));
    }
    runs
}


/// Where a seek to virtual position `v` lands when the search starts at
/// run `i`: the run before the first whose virtual offset exceeds `v`,
/// or the last run when none does.
pub open spec fn run_index_from(runs: Seq<DataRun>, v: int, i: int) -> int
    decreases runs.len() - i,
{
    if i + 1 >= runs.len() || runs[i + 1].virt_offset > v {
        i
    } else {
        run_index_from(runs, v, i + 1)
    }
}

/// The run a seek to virtual position `v` selects.
pub open spec fn run_index_for(runs: Seq<DataRun>, v: int) -> int {
    run_index_from(runs, v, 0)
}

/// The selected run starts at or before `v`, and `v` lies at most at its
/// end (strictly inside it when `v` is below the total).
pub proof fn lemma_run_index_props(runs: Seq<DataRun>, v: int, i: int)
    requires
        runs_wf(runs),
        0 <= i < runs.len(),
        runs[i].virt_offset <= v <= runs_total(runs),
    ensures
        i <= run_index_from(runs, v, i) < runs.len(),
        runs[run_index_from(runs, v, i)].virt_offset <= v,
        v - runs[run_index_from(runs, v, i)].virt_offset <= runs[run_index_from(runs, v, i)].len,
        v < runs_total(runs) ==> v - runs[run_index_from(runs, v, i)].virt_offset < runs[
            run_index_from(runs, v, i)
        ].len,
    decreases runs.len() - i,
{
    let k = run_index_from(runs, v, i);
    if i + 1 >= runs.len() || runs[i + 1].virt_offset > v {
        assert(k == i);
        if i == runs.len() - 1 {
            assert(runs.last() == runs[i]);
        } else {
            assert(runs[i + 1].virt_offset == runs[i].virt_offset + runs[i].len);
            lemma_run_end_le_total(runs, i);
        }
    } else {
        lemma_run_index_props(runs, v, i + 1);
    }
}

/// Seek idempotence of the run selection: a virtual position strictly
/// inside run `i` is resolved to run `i`, whatever run the reader stood
/// in before. What a read returns therefore depends on the virtual
/// position alone, not on the state that reached it.
pub proof fn lemma_seek_resolves_position(runs: Seq<DataRun>, i: int, v: int)
    requires
        runs_wf(runs),
        0 <= i < runs.len(),
        runs[i].virt_offset <= v < runs[i].virt_offset + runs[i].len,
    ensures
        run_index_for(runs, v) == i,
{
    lemma_resolve_from(runs, i, v, 0);
}

proof fn lemma_resolve_from(runs: Seq<DataRun>, i: int, v: int, s: int)
    requires
        runs_wf(runs),
        0 <= s <= i < runs.len(),
        runs[s].virt_offset <= v,
        runs[i].virt_offset <= v < runs[i].virt_offset + runs[i].len,
    ensures
        run_index_from(runs, v, s) == i,
    decreases i - s,
{
    if s == i {
        if i < runs.len() - 1 {
            assert(runs[i + 1].virt_offset == runs[i].virt_offset + runs[i].len);
        }
    } else {
        lemma_virt_monotonic(runs, s + 1, i);
        lemma_resolve_from(runs, i, v, s + 1);
    }
}

/// How many bytes one read call returns at virtual position `v`: up to
/// `n`, and never past the end of the selected run. A read does not
/// cross a run boundary; the next call re-seeks into the following run.
pub open spec fn single_read_amount(runs: Seq<DataRun>, v: int, n: int) -> int {
    if v >= runs_total(runs) {
        0
    } else {
        let k = run_index_for(runs, v);
        let rem = runs[k].virt_offset + runs[k].len - v;
        if n <= rem {
            n
        } else {
            rem
        }
    }
}

/// The state of a `RunReader`: the current run and the byte offset
/// within it.
struct ReadState {
    run: usize,
    pos: u64,
}

/// A seekable byte stream over the runs of a non-resident attribute: the
/// reader presents the logical range `[0, size)` while gathering the
/// bytes from the runs scattered over the volume.
pub struct RunReader<D: ByteSource> {
    volume: D,
    state: ReadState,
    runs: Vec<DataRun>,
    size: u64,
}

impl<D: ByteSource> RunReader<D> {
    /// The run list.
    pub closed spec fn runs_view(&self) -> Seq<DataRun> {
        self.runs@
    }

    /// The content of the underlying volume.
    pub closed spec fn dev_content(&self) -> Seq<u8> {
        self.volume.content()
    }

    /// The logical size: the total of the run list.
    pub closed spec fn size_view(&self) -> int {
        self.size as int
    }

    /// The run the cursor stands in.
    pub closed spec fn current_run(&self) -> int {
        self.state.run as int
    }

    /// The byte offset of the cursor within the current run.
    pub closed spec fn run_pos(&self) -> int {
        self.state.pos as int
    }

    /// The logical position of the cursor.
    pub closed spec fn virt_pos(&self) -> int {
        self.runs@[self.state.run as int].virt_offset + self.state.pos
    }

    /// The volume position of the cursor.
    pub closed spec fn phys_pos(&self) -> int {
        self.runs@[self.state.run as int].offset + self.state.pos
    }

    /// The position of the underlying volume handle.
    pub closed spec fn dev_pos(&self) -> nat {
        self.volume.pos()
    }

    /// Every run lies within the volume: reads then return exactly the
    /// logical content.
    pub open spec fn covered(&self) -> bool {
        runs_in(self.runs_view(), self.dev_content())
    }

    /// Well-formed reader: valid run list, the stored size is its total,
    /// the state points into it, and the volume cursor agrees with the
    /// state once the first seek or read has placed it.
    pub closed spec fn wf(&self) -> bool {
        &&& self.volume.inv()
        &&& runs_wf(self.runs@)
        &&& self.size == runs_total(self.runs@)
        &&& (self.state.run as int) < self.runs@.len()
        &&& self.state.pos <= self.runs@[self.state.run as int].len
        &&& (self.virt_pos() == 0 || self.dev_pos() == self.phys_pos())
    }

    pub fn new(volume: D, runs: Vec<DataRun>) -> (r: RunReader<D>)
        requires
            volume.inv(),
            runs_wf(runs@),
        ensures
            r.wf(),
            r.runs_view() == runs@,
            r.size_view() == runs_total(runs@),
            r.dev_content() == volume.content(),
            r.virt_pos() == 0,
    {
        let n = runs.len();
        let mut size: u64 = 0;
        let mut i: usize = 0;
        while i < n
            invariant
                i <= n,
                n == runs@.len(),
                runs_wf(runs@),
                i < n ==> size == runs@[i as int].virt_offset,
                i == n ==> size == runs_total(runs@),
            decreases n - i,
        {
            proof {
                lemma_run_end_le_total(runs@, i as int);
                if i + 1 < n {
                    assert(runs@[i + 1].virt_offset == runs@[i as int].virt_offset
                        + runs@[i as int].len);
                } else {
                    assert(runs@.last() == runs@[i as int]);
                }
            }
            size = size + runs[i].len;
            i = i + 1;
        }
        RunReader { volume, state: ReadState { run: 0, pos: 0 }, runs, size }
    }

    /// The state a seek to virtual position `pos` selects: the run before
    /// the first whose virtual offset exceeds `pos`, and the distance
    /// into it.
    #[verifier::rlimit(60)]
    fn state_for(&self, pos: u64) -> (st: ReadState)
        requires
            self.wf(),
            pos <= self.size_view(),
        ensures
            st.run as int == run_index_for(self.runs_view(), pos as int),
            (st.run as int) < self.runs_view().len(),
            self.runs_view()[st.run as int].virt_offset <= pos,
            st.pos == pos - self.runs_view()[st.run as int].virt_offset,
            st.pos <= self.runs_view()[st.run as int].len,
    {
        proof {
            lemma_run_index_props(self.runs@, pos as int, 0);
        }
        let n = self.runs.len();
        let mut idx: usize = 1;
        while idx < n && self.runs[idx].virt_offset <= pos
            invariant
                1 <= idx <= n,
                n == self.runs@.len(),
                self.wf(),
                pos <= self.size_view(),
                self.runs@[idx - 1].virt_offset <= pos,
                run_index_for(self.runs@, pos as int) == run_index_from(
                    self.runs@,
                    pos as int,
                    idx - 1,
                ),
            decreases n - idx,
        {
            idx = idx + 1;
        }
        let run = idx - 1;
        proof {
            assert(run_index_from(self.runs@, pos as int, run as int) == run as int);
        }
        ReadState { run, pos: pos - self.runs[run].virt_offset }
    }

    /// The cursor identities: the logical position is the current run's
    /// virtual offset plus the in-run offset, and the volume position is
    /// the current run's volume offset plus the same in-run offset —
    /// their difference is constant within a run.
    pub proof fn lemma_cursor_positions(&self)
        ensures
            self.virt_pos() == self.runs_view()[self.current_run()].virt_offset + self.run_pos(),
            self.phys_pos() == self.runs_view()[self.current_run()].offset + self.run_pos(),
    {
    }

    /// Bytes left before the end of the current run.
    pub fn run_remaining(&self) -> (r: u64)
        requires
            self.wf(),
        ensures
            r == self.runs_view()[self.current_run()].len - self.run_pos(),
    {
        self.runs[self.state.run].len - self.state.pos
    }

    /// The volume position of the cursor: the current run's volume
    /// offset plus the in-run offset.
    pub fn position(&self) -> (r: u64)
        requires
            self.wf(),
        ensures
            r == self.phys_pos(),
            r == self.runs_view()[self.current_run()].offset + self.run_pos(),
    {
        self.runs[self.state.run].offset + self.state.pos
    }

    /// The logical position of the cursor: the current run's virtual
    /// offset plus the in-run offset.
    pub fn virt_position(&self) -> (r: u64)
        requires
            self.wf(),
        ensures
            r == self.virt_pos(),
            r == self.runs_view()[self.current_run()].virt_offset + self.run_pos(),
    {
        proof {
            lemma_run_end_le_total(self.runs@, self.state.run as int);
        }
        self.runs[self.state.run].virt_offset + self.state.pos
    }

    /// The logical position of the cursor, as the stream surface names
    /// it.
    pub fn stream_position(&self) -> (r: u64)
        requires
            self.wf(),
        ensures
            r == self.virt_pos(),
    {
        self.virt_position()
    }

    /// Seeks to a logical position: resolves the target run, then seeks
    /// the volume handle to the matching volume position. A target
    /// outside `[0, size]` is refused with `Error::OutOfRange`.
    pub fn seek(&mut self, whence: SeekFrom) -> (r: Result<u64, Error>)
        requires
            old(self).wf(),
        ensures
            final(self).wf(),
            final(self).runs_view() == old(self).runs_view(),
            final(self).dev_content() == old(self).dev_content(),
            final(self).size_view() == old(self).size_view(),
            ({
                let t = seek_target(whence, old(self).virt_pos(), old(self).size_view());
                let k = run_index_for(old(self).runs_view(), t);
                match r {
                    Ok(v) => {
                        &&& 0 <= t <= old(self).size_view()
                        &&& v == t
                        &&& final(self).virt_pos() == t
                        &&& final(self).current_run() == k
                        &&& final(self).run_pos() == t - old(self).runs_view()[k].virt_offset
                        &&& final(self).dev_pos() == final(self).phys_pos()
                    },
                    Err(e) => {
                        &&& final(self).virt_pos() == old(self).virt_pos()
                        &&& final(self).current_run() == old(self).current_run()
                        &&& final(self).run_pos() == old(self).run_pos()
                        &&& final(self).dev_pos() == old(self).dev_pos()
                        &&& (t < 0 || t > old(self).size_view()) ==> e == Error::OutOfRange
                    },
                }
            }),
    {
        proof {
            lemma_run_end_le_total(self.runs@, self.state.run as int);
        }
        let target: u64 = match whence {
            SeekFrom::Start(x) => x,
            SeekFrom::Current(d) => {
                let cur = self.virt_position();
                match checked_add_signed(cur, d) {
                    Ok(v) => v,
                    Err(e) => {
                        return Err(e);
                    },
                }
            },
            SeekFrom::End(d) => {
                match checked_add_signed(self.size, d) {
                    Ok(v) => v,
                    Err(e) => {
                        return Err(e);
                    },
                }
            },
        };
        if target > self.size {
            return Err(Error::OutOfRange);
        }
        let st = self.state_for(target);
        let phys = self.runs[st.run].offset + st.pos;
        match self.volume.seek_to(phys) {
            Ok(()) => (),
            Err(e) => {
                return Err(e);
            },
        }
        self.state = st;
        Ok(self.virt_position())
    }
}

/// The target of a seek: absolute, relative to the cursor, or relative
/// to the end of the stream.
pub open spec fn seek_target(whence: SeekFrom, cur: int, size: int) -> int {
    match whence {
        SeekFrom::Start(x) => x as int,
        SeekFrom::Current(d) => cur + d,
        SeekFrom::End(d) => size + d,
    }
}

/// `base + d` as an unsigned position, or `Error::OutOfRange` when the
/// result leaves `[0, u64::MAX]`.
fn checked_add_signed(base: u64, d: i64) -> (r: Result<u64, Error>)
    ensures
        match r {
            Ok(v) => v == base + d,
            Err(e) => e == Error::OutOfRange && (base + d < 0 || base + d > u64::MAX),
        },
{
    if d >= 0 {
        let du = d as u64;
        if base <= u64::MAX - du {
            Ok(base + du)
        } else {
            Err(Error::OutOfRange)
        }
    } else {
        let m = ((-(d + 1)) as u64) + 1;
        if base >= m {
            Ok(base - m)
        } else {
            Err(Error::OutOfRange)
        }
    }
}


/// The bytes a read serves from within run `k` are the logical content
/// at the matching virtual positions.
proof fn lemma_read_bytes_match(
    runs: Seq<DataRun>,
    c: Seq<u8>,
    k: int,
    v0: int,
    take: int,
    got: Seq<u8>,
)
    requires
        runs_wf(runs),
        runs_in(runs, c),
        0 <= k < runs.len(),
        runs[k].virt_offset <= v0,
        0 <= take,
        v0 + take <= runs[k].virt_offset + runs[k].len,
        got.len() == take,
        forall|j: int| 0 <= j < take ==> got[j] == c[runs[k].offset + (v0 - runs[k].virt_offset) + j],
    ensures
        got =~= runs_content(runs, c).subrange(v0, v0 + take),
{
    lemma_runs_content_len(runs, c);
    lemma_run_end_le_total(runs, k);
    assert forall|j: int| 0 <= j < take implies runs_content(runs, c)[v0 + j] == got[j] by {
        lemma_runs_content_index(runs, c, k, v0 + j);
    }
}

impl<D: ByteSource> RunReader<D> {
    /// Reads up to `n` bytes at the cursor. A call serves from one run
    /// only; when the current run is exhausted (or nothing has been read
    /// yet) the reader first re-seeks the volume to the position of the
    /// run the cursor resolves to — this is the only mechanism that
    /// carries reading across a run boundary. At the end of the stream
    /// the call returns no bytes. When the runs lie within the volume
    /// (`covered`), the bytes are exactly the logical content at the
    /// cursor.
    #[verifier::rlimit(60)]
    pub fn read(&mut self, n: usize) -> (r: Result<Vec<u8>, Error>)
        requires
            old(self).wf(),
        ensures
            final(self).wf(),
            final(self).runs_view() == old(self).runs_view(),
            final(self).dev_content() == old(self).dev_content(),
            final(self).size_view() == old(self).size_view(),
            match r {
                Ok(v) => {
                    &&& final(self).virt_pos() == old(self).virt_pos() + v@.len()
                    &&& v@.len() <= n
                    &&& old(self).virt_pos() >= old(self).size_view() ==> v@.len() == 0
                    &&& old(self).covered() ==> v@.len() == single_read_amount(
                        old(self).runs_view(),
                        old(self).virt_pos(),
                        n as int,
                    ) && v@ == runs_content(old(self).runs_view(), old(self).dev_content()).subrange(
                        old(self).virt_pos(),
                        old(self).virt_pos() + v@.len(),
                    )
                    &&& old(self).covered() ==> old(self).virt_pos() + v@.len() <= old(
                        self,
                    ).size_view()
                    &&& old(self).covered() && old(self).virt_pos() < old(self).size_view() && n
                        > 0 ==> v@.len() > 0
                },
                Err(_) => final(self).virt_pos() == old(self).virt_pos(),
            },
    {
        let ghost c = self.volume.content();
        let ghost runs = self.runs@;
        let ghost v0 = self.virt_pos();
        proof {
            lemma_run_end_le_total(runs, self.state.run as int);
        }
        let vpos = self.virt_position();
        if vpos == 0 || (self.run_remaining() == 0 && vpos < self.size) {
            match self.seek(SeekFrom::Start(vpos)) {
                Ok(_) => (),
                Err(e) => {
                    return Err(e);
                },
            }
        }
        proof {
            if v0 < self.size_view() {
                lemma_run_index_props(runs, v0, 0);
                if old(self).run_pos() < runs[old(self).current_run()].len && v0 != 0 {
                    lemma_seek_resolves_position(runs, old(self).current_run(), v0);
                }
                assert(self.current_run() == run_index_for(runs, v0));
            } else {
                lemma_run_end_le_total(runs, self.state.run as int);
                assert(self.state.pos == self.runs@[self.state.run as int].len);
            }
        }
        let remaining = self.run_remaining();
        let take: usize = if (n as u64) <= remaining {
            n
        } else {
            remaining as usize
        };
        let ghost dp = self.volume.pos();
        let got = match self.volume.read_some(take) {
            Ok(g) => g,
            Err(e) => {
                return Err(e);
            },
        };
        proof {
            if self.covered() {
                let k = self.state.run as int;
                assert(runs[k].offset + runs[k].len <= c.len());
                if v0 < self.size_view() {
                    lemma_run_end_le_total(runs, k);
                    assert(dp == runs[k].offset + self.state.pos);
                    assert(read_start(c, dp) == dp);
                    assert(got@.len() == take);
                    assert forall|j: int| 0 <= j < take implies got@[j] == c[runs[k].offset + (v0
                        - runs[k].virt_offset) + j] by {
                        assert(got@[j] == c[dp + j]);
                    }
                    lemma_read_bytes_match(runs, c, k, v0, take as int, got@);
                } else {
                    assert(take == 0);
                    assert(got@.len() == 0);
                    lemma_runs_content_len(runs, c);
                    assert(got@ =~= runs_content(runs, c).subrange(v0, v0));
                }
            }
        }
        let glen = got.len();
        self.state.pos = self.state.pos + glen as u64;
        Ok(got)
    }
}


/// The content of one attribute: stored inline in the MFT record, or in
/// a list of runs elsewhere on the volume.
#[derive(Debug)]
pub enum Content {
    Resident { data: Vec<u8> },
    NonResident {
        run_start_vcn: u64,
        run_end_vcn: u64,
        alloc_size: u64,
        size: u64,
        runs: Vec<DataRun>,
    },
}

impl Content {
    /// A valid content descriptor: a non-resident one carries a
    /// well-formed run list whose lengths add up to its size exactly.
    pub open spec fn wf(&self) -> bool {
        match self {
            Content::Resident { .. } => true,
            Content::NonResident { size, runs, .. } => runs_wf(runs@) && runs_total(runs@)
                == *size,
        }
    }

    /// The declared size of the content.
    pub open spec fn spec_size(&self) -> int {
        match self {
            Content::Resident { data } => data@.len() as int,
            Content::NonResident { size, .. } => *size as int,
        }
    }

    /// Builds a reader over this content. Resident content is copied
    /// into an in-memory cursor (and the volume handle is released);
    /// non-resident content reads through the handed volume.
    pub fn reader<D: ByteSource>(&self, volume: D) -> (r: ContentReader<D>)
        requires
            self.wf(),
            volume.inv(),
        ensures
            r.wf(),
            r.spec_size() == self.spec_size(),
            r.spec_pos() == 0,
            match self {
                Content::Resident { data } => r is Resident && r.logical() == data@,
                Content::NonResident { runs, .. } => r matches ContentReader::NonResident {
                    inner,
                } && inner.runs_view() == runs@ && inner.dev_content() == volume.content(),
            },
    {
        match self {
            Content::Resident { data } => ContentReader::Resident {
                inner: MemDevice::new(dup_bytes(data)),
            },
            Content::NonResident { runs, .. } => ContentReader::NonResident {
                inner: RunReader::new(volume, dup_runs(runs)),
            },
        }
    }
}

/// Builds a reader over `content` that reads through `volume`: the free
/// form of `Content::reader`.
pub fn content_reader<D: ByteSource>(volume: D, content: &Content) -> (r: ContentReader<D>)
    requires
        content.wf(),
        volume.inv(),
    ensures
        r.wf(),
        r.spec_size() == content.spec_size(),
        r.spec_pos() == 0,
        match content {
            Content::Resident { data } => r is Resident && r.logical() == data@,
            Content::NonResident { runs, .. } => r matches ContentReader::NonResident {
                inner,
            } && inner.runs_view() == runs@ && inner.dev_content() == volume.content(),
        },
{
    content.reader(volume)
}

/// A byte-for-byte copy of a byte vector.
fn dup_bytes(src: &Vec<u8>) -> (r: Vec<u8>)
    ensures
        r@ == src@,
{
    let n = src.len();
    let mut r: Vec<u8> = Vec::new();
    let mut i: usize = 0;
    while i < n
        invariant
            i <= n,
            n == src@.len(),
            r@ == src@.subrange(0, i as int),
        decreases n - i,
    {
        r.push(src[i]);
        proof {
            assert(r@ =~= src@.subrange(0, i + 1));
        }
        i = i + 1;
    }
    proof {
        assert(r@ =~= src@);
    }
    r
}

/// An element-for-element copy of a run list.
fn dup_runs(src: &Vec<DataRun>) -> (r: Vec<DataRun>)
    ensures
        r@ == src@,
{
    let n = src.len();
    let mut r: Vec<DataRun> = Vec::new();
    let mut i: usize = 0;
    while i < n
        invariant
            i <= n,
            n == src@.len(),
            r@ == src@.subrange(0, i as int),
        decreases n - i,
    {
        r.push(src[i]);
        proof {
            assert(r@ =~= src@.subrange(0, i + 1));
        }
        i = i + 1;
    }
    proof {
        assert(r@ =~= src@);
    }
    r
}

/// A seekable byte stream over the content of one attribute, uniform
/// over resident (in-memory) and non-resident (run list) storage.
pub enum ContentReader<D: ByteSource> {
    Resident { inner: MemDevice },
    NonResident { inner: RunReader<D> },
}

impl<D: ByteSource> ContentReader<D> {
    pub open spec fn wf(&self) -> bool {
        match self {
            ContentReader::Resident { inner } => inner.inv(),
            ContentReader::NonResident { inner } => inner.wf(),
        }
    }

    /// The logical byte content behind the reader.
    pub open spec fn logical(&self) -> Seq<u8> {
        match self {
            ContentReader::Resident { inner } => inner.content(),
            ContentReader::NonResident { inner } => runs_content(
                inner.runs_view(),
                inner.dev_content(),
            ),
        }
    }

    /// The declared size of the content.
    pub open spec fn spec_size(&self) -> int {
        match self {
            ContentReader::Resident { inner } => inner.content().len() as int,
            ContentReader::NonResident { inner } => inner.size_view(),
        }
    }

    /// The logical position of the cursor.
    pub open spec fn spec_pos(&self) -> int {
        match self {
            ContentReader::Resident { inner } => inner.pos() as int,
            ContentReader::NonResident { inner } => inner.virt_pos(),
        }
    }

    /// The runs lie within the volume, so reads return the logical
    /// content; resident content is always covered.
    pub open spec fn covered(&self) -> bool {
        match self {
            ContentReader::Resident { .. } => true,
            ContentReader::NonResident { inner } => inner.covered(),
        }
    }

    /// Under `covered` the logical content has exactly the declared
    /// size.
    pub proof fn lemma_logical_len(&self)
        requires
            self.wf(),
            self.covered(),
        ensures
            self.logical().len() == self.spec_size(),
    {
        match self {
            ContentReader::Resident { .. } => {},
            ContentReader::NonResident { inner } => {
                lemma_runs_content_len(inner.runs_view(), inner.dev_content());
            },
        }
    }

    /// The declared size of the content, in bytes.
    pub fn size(&self) -> (r: u64)
        requires
            self.wf(),
        ensures
            r == self.spec_size(),
    {
        match self {
            ContentReader::Resident { inner } => inner.byte_len() as u64,
            ContentReader::NonResident { inner } => inner.size,
        }
    }

    /// The logical position of the cursor.
    pub fn stream_position(&self) -> (r: u64)
        requires
            self.wf(),
        ensures
            r == self.spec_pos(),
    {
        match self {
            ContentReader::Resident { inner } => inner.position(),
            ContentReader::NonResident { inner } => inner.stream_position(),
        }
    }

    /// Reads up to `n` bytes at the cursor, advancing it by what was
    /// read. At the end of the content the call returns no bytes. Under
    /// `covered` the bytes are exactly the logical content at the
    /// cursor, and a call below the end returns at least one byte.
    pub fn read(&mut self, n: usize) -> (r: Result<Vec<u8>, Error>)
        requires
            old(self).wf(),
        ensures
            final(self).wf(),
            final(self).logical() == old(self).logical(),
            final(self).spec_size() == old(self).spec_size(),
            final(self).covered() == old(self).covered(),
            match r {
                Ok(v) => {
                    &&& final(self).spec_pos() == old(self).spec_pos() + v@.len()
                    &&& v@.len() <= n
                    &&& old(self).spec_pos() >= old(self).spec_size() ==> v@.len() == 0
                    &&& old(self).covered() ==> v@ == old(self).logical().subrange(
                        read_start(old(self).logical(), old(self).spec_pos() as nat),
                        read_start(old(self).logical(), old(self).spec_pos() as nat) + v@.len(),
                    )
                    &&& old(self).covered() && old(self).spec_pos() < old(self).spec_size() && n
                        > 0 ==> v@.len() > 0
                    &&& old(self).covered() && old(self).spec_pos() <= old(self).spec_size()
                        ==> old(self).spec_pos() + v@.len() <= old(self).spec_size()
                },
                Err(_) => final(self).spec_pos() == old(self).spec_pos(),
            },
    {
        match self {
            ContentReader::Resident { inner } => inner.read_some(n),
            ContentReader::NonResident { inner } => {
                proof {
                    lemma_run_end_le_total(inner.runs_view(), inner.current_run());
                    if inner.covered() {
                        lemma_runs_content_len(inner.runs_view(), inner.dev_content());
                    }
                }
                inner.read(n)
            },
        }
    }

    /// Seeks to a logical position. A target outside `[0, size]` is a
    /// caller error and is refused with `Error::OutOfRange`, for
    /// resident and non-resident content alike.
    pub fn seek(&mut self, whence: SeekFrom) -> (r: Result<u64, Error>)
        requires
            old(self).wf(),
        ensures
            final(self).wf(),
            final(self).logical() == old(self).logical(),
            final(self).spec_size() == old(self).spec_size(),
            final(self).covered() == old(self).covered(),
            ({
                let t = seek_target(whence, old(self).spec_pos(), old(self).spec_size());
                match r {
                    Ok(v) => {
                        &&& v == t
                        &&& 0 <= t <= old(self).spec_size()
                        &&& final(self).spec_pos() == t
                    },
                    Err(e) => {
                        &&& final(self).spec_pos() == old(self).spec_pos()
                        &&& ((t < 0 || t > u64::MAX) ==> e == Error::OutOfRange)
                        &&& (t > old(self).spec_size() ==> e == Error::OutOfRange)
                        &&& ((*old(self)) is Resident ==> (t < 0 || t > old(self).spec_size()
                            || t > u64::MAX) && e == Error::OutOfRange)
                    },
                }
            }),
            (*old(self)) is Resident && 0 <= seek_target(
                whence,
                old(self).spec_pos(),
                old(self).spec_size(),
            ) <= old(self).spec_size() && seek_target(
                whence,
                old(self).spec_pos(),
                old(self).spec_size(),
            ) <= u64::MAX ==> r is Ok,
    {
        match self {
            ContentReader::Resident { inner } => {
                let target: u64 = match whence {
                    SeekFrom::Start(x) => x,
                    SeekFrom::Current(d) => {
                        let cur = inner.position();
                        match checked_add_signed(cur, d) {
                            Ok(v) => v,
                            Err(e) => {
                                return Err(e);
                            },
                        }
                    },
                    SeekFrom::End(d) => {
                        let len = inner.byte_len();
                        match checked_add_signed(len as u64, d) {
                            Ok(v) => v,
                            Err(e) => {
                                return Err(e);
                            },
                        }
                    },
                };
                if target > inner.byte_len() as u64 {
                    return Err(Error::OutOfRange);
                }
                inner.set_position(target);
                Ok(target)
            },
            ContentReader::NonResident { inner } => inner.seek(whence),
        }
    }

    /// Reads exactly `n` bytes, or fails with `Error::Io` when the
    /// content ends first. As on any byte stream, how far the cursor
    /// moved when the call fails is unspecified.
    #[verifier::rlimit(60)]
    pub fn read_exact(&mut self, n: usize) -> (r: Result<Vec<u8>, Error>)
        requires
            old(self).wf(),
        ensures
            final(self).wf(),
            final(self).logical() == old(self).logical(),
            final(self).spec_size() == old(self).spec_size(),
            final(self).covered() == old(self).covered(),
            match r {
                Ok(v) => {
                    &&& v@.len() == n
                    &&& final(self).spec_pos() == old(self).spec_pos() + n
                    &&& old(self).covered() && n > 0 ==> old(self).spec_pos() + n <= old(
                        self,
                    ).spec_size() && v@ == old(self).logical().subrange(
                        old(self).spec_pos(),
                        old(self).spec_pos() + n,
                    )
                },
                Err(_) => true,
            },
    {
        let ghost gl = self.logical();
        let ghost gs = self.spec_size();
        let ghost gc = self.covered();
        let ghost p0 = self.spec_pos();
        let mut acc: Vec<u8> = Vec::new();
        while acc.len() < n
            invariant
                self.wf(),
                self.logical() == gl,
                self.spec_size() == gs,
                self.covered() == gc,
                gl == old(self).logical(),
                gs == old(self).spec_size(),
                gc == old(self).covered(),
                p0 == old(self).spec_pos(),
                acc@.len() <= n,
                self.spec_pos() == p0 + acc@.len(),
                gc && acc@.len() > 0 ==> p0 + acc@.len() <= gs && gs <= gl.len() && acc@
                    == gl.subrange(p0, p0 + acc@.len()),
            decreases n - acc.len(),
        {
            let want = n - acc.len();
            let mut got = match self.read(want) {
                Ok(g) => g,
                Err(e) => {
                    return Err(e);
                },
            };
            if got.len() == 0 {
                return Err(Error::Io);
            }
            proof {
                if gc {
                    self.lemma_logical_len();
                    assert(p0 + acc@.len() < gs);
                    assert(got@ == gl.subrange(
                        p0 + acc@.len(),
                        p0 + acc@.len() + got@.len() as int,
                    ));
                    assert(acc@ + got@ =~= gl.subrange(p0, p0 + acc@.len() + got@.len() as int));
                }
            }
            acc.append(&mut got);
        }
        Ok(acc)
    }

    /// Reads the whole content: seeks to the start and reads all
    /// `size()` bytes. Under `covered` the result is exactly the logical
    /// content, all `size()` bytes of it, and the cursor ends at the end
    /// of the stream, where a further read returns zero bytes.
    pub fn read_all(&mut self) -> (r: Result<Vec<u8>, Error>)
        requires
            old(self).wf(),
        ensures
            final(self).wf(),
            final(self).logical() == old(self).logical(),
            final(self).spec_size() == old(self).spec_size(),
            final(self).covered() == old(self).covered(),
            match r {
                Ok(v) => {
                    &&& final(self).spec_pos() == final(self).spec_size()
                    &&& v@.len() == old(self).spec_size()
                    &&& old(self).covered() ==> v@ == old(self).logical()
                },
                Err(_) => true,
            },
    {
        let ghost gl = self.logical();
        let ghost gc = self.covered();
        match self.seek(SeekFrom::Start(0)) {
            Ok(_) => (),
            Err(e) => {
                return Err(e);
            },
        }
        let sz = self.size();
        if sz > (usize::MAX as u64) {
            return Err(Error::OutOfRange);
        }
        let v = match self.read_exact(sz as usize) {
            Ok(v) => v,
            Err(e) => {
                return Err(e);
            },
        };
        proof {
            if gc {
                self.lemma_logical_len();
                assert(v@ =~= gl);
            }
        }
        Ok(v)
    }
}

} // verus!
