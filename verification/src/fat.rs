//! The FAT block allocator: a doubly-linked, run-encoded free/used block
//! list over a data region. Block indices are table indices: `1 ..= count`
//! name the data blocks (block `b` covers data bytes `(b-1)*block_len ..`),
//! and table slot 0 holds the free-chain head and tail pointers.
//!
//! Each table slot holds two 32-bit fields. `u`: run-head flag in the high
//! bit, previous-node index biased by one in the low bits (0 = none). `v`:
//! expansion flag in the high bit, next-node index biased by one in the low
//! bits (0 = end of chain). A run of more than one block stores its tail
//! index, high-bit-marked, in the `v` field of the slot after the head; the
//! tail's `u` holds the head index plus one, flag clear.
//!
//! In memory the allocator keeps the chains as run lists (`FatRun`), the
//! verified model of the table; every operation states exactly how blocks
//! move between the free list and file chains.

use crate::bytes::{le32, read_u32_le, write_u32_le};
use crate::error::Error;
use vstd::arithmetic::div_mod::*;
use vstd::arithmetic::mul::*;
use vstd::prelude::*;
use vstd::seq_lib::lemma_multiset_commutative;

verus! {

/// A run: `len` contiguous blocks starting at block index `start`.
#[derive(Clone, Copy, Debug)]
pub struct FatRun {
    pub start: u32,
    pub len: u32,
}

/// One table slot, decoded.
#[derive(Clone, Copy, Debug)]
pub struct FatEntry {
    pub u: u32,
    pub v: u32,
}

/// The block indices of one run, in order.
pub open spec fn run_blocks(r: FatRun) -> Seq<u32> {
    Seq::new(r.len as nat, |j: int| (r.start + j) as u32)
}

/// The block indices of a run list, in chain order.
pub open spec fn flatten_runs(rs: Seq<FatRun>) -> Seq<u32>
    decreases rs.len(),
{
    if rs.len() == 0 {
        Seq::empty()
    } else {
        run_blocks(rs[0]) + flatten_runs(rs.drop_first())
    }
}

/// Every run names valid data blocks: inside `1 ..= count`, nonempty.
pub open spec fn runs_wf(rs: Seq<FatRun>, count: int) -> bool {
    forall|k: int|
        0 <= k < rs.len() ==> 1 <= #[trigger] rs[k].start && rs[k].start + rs[k].len <= count + 1
            && rs[k].len >= 1
}

/// Two runs cover disjoint block ranges.
pub open spec fn run_pair_disjoint(a: FatRun, b: FatRun) -> bool {
    a.start + a.len <= b.start || b.start + b.len <= a.start
}

/// No two runs of the list overlap.
pub open spec fn runs_pairwise_disjoint(rs: Seq<FatRun>) -> bool {
    forall|i: int, j: int|
        0 <= i < rs.len() && 0 <= j < rs.len() && i != j ==> run_pair_disjoint(
            #[trigger] rs[i],
            #[trigger] rs[j],
        )
}

/// No block index occurs in both sequences.
pub open spec fn seqs_disjoint(a: Seq<u32>, b: Seq<u32>) -> bool {
    forall|x: u32| a.contains(x) ==> !b.contains(x)
}

proof fn lemma_flatten_skip_succ(rs: Seq<FatRun>, k: int)
    requires
        0 <= k < rs.len(),
    ensures
        flatten_runs(rs.skip(k)) == run_blocks(rs[k]) + flatten_runs(rs.skip(k + 1)),
{
    assert(rs.skip(k).len() > 0);
    assert(rs.skip(k)[0] == rs[k]);
    assert(rs.skip(k).drop_first() =~= rs.skip(k + 1));
}

proof fn lemma_flatten_contains(rs: Seq<FatRun>, x: u32)
    ensures
        flatten_runs(rs).contains(x) <==> exists|k: int|
            0 <= k < rs.len() && run_blocks(#[trigger] rs[k]).contains(x),
    decreases rs.len(),
{
    if rs.len() == 0 {
    } else {
        lemma_flatten_contains(rs.drop_first(), x);
        let rest = rs.drop_first();
        if flatten_runs(rs).contains(x) {
            let i = choose|i: int| 0 <= i < flatten_runs(rs).len() && flatten_runs(rs)[i] == x;
            if i < run_blocks(rs[0]).len() {
                assert(run_blocks(rs[0]).contains(x));
            } else {
                assert(flatten_runs(rest)[i - run_blocks(rs[0]).len()] == x);
                assert(flatten_runs(rest).contains(x));
                let k = choose|k: int|
                    0 <= k < rest.len() && run_blocks(#[trigger] rest[k]).contains(x);
                assert(rs[k + 1] == rest[k]);
                assert(run_blocks(rs[k + 1]).contains(x));
            }
        }
        if exists|k: int| 0 <= k < rs.len() && run_blocks(#[trigger] rs[k]).contains(x) {
            let k = choose|k: int| 0 <= k < rs.len() && run_blocks(#[trigger] rs[k]).contains(x);
            if k == 0 {
                let j = choose|j: int|
                    0 <= j < run_blocks(rs[0]).len() && run_blocks(rs[0])[j] == x;
                assert(flatten_runs(rs)[j] == x);
            } else {
                assert(rest[k - 1] == rs[k]);
                assert(flatten_runs(rest).contains(x));
                let j = choose|j: int|
                    0 <= j < flatten_runs(rest).len() && flatten_runs(rest)[j] == x;
                assert(flatten_runs(rs)[run_blocks(rs[0]).len() + j] == x);
            }
        }
    }
}

proof fn lemma_flatten_no_dup(rs: Seq<FatRun>)
    requires
        runs_pairwise_disjoint(rs),
        forall|k: int| 0 <= k < rs.len() ==> (#[trigger] rs[k]).start + rs[k].len <= 0xFFFF_FFFF,
    ensures
        flatten_runs(rs).no_duplicates(),
    decreases rs.len(),
{
    if rs.len() == 0 {
    } else {
        let rest = rs.drop_first();
        assert(runs_pairwise_disjoint(rest)) by {
            assert forall|i: int, j: int|
                0 <= i < rest.len() && 0 <= j < rest.len() && i != j implies run_pair_disjoint(
                #[trigger] rest[i],
                #[trigger] rest[j],
            ) by {
                assert(rest[i] == rs[i + 1]);
                assert(rest[j] == rs[j + 1]);
            }
        }
        lemma_flatten_no_dup(rest);
        let head = run_blocks(rs[0]);
        assert(head.no_duplicates());
        assert forall|i: int, j: int|
            0 <= i < flatten_runs(rs).len() && 0 <= j < flatten_runs(rs).len() && i
                != j implies flatten_runs(rs)[i] != flatten_runs(rs)[j] by {
            let hl = head.len() as int;
            if i < hl && j < hl {
            } else if i >= hl && j >= hl {
                assert(flatten_runs(rs)[i] == flatten_runs(rest)[i - hl]);
                assert(flatten_runs(rs)[j] == flatten_runs(rest)[j - hl]);
            } else {
                let (a, b) = if i < hl {
                    (i, j)
                } else {
                    (j, i)
                };
                let x = flatten_runs(rs)[a];
                let y = flatten_runs(rs)[b];
                assert(head[a] == x);
                assert(head.contains(x));
                assert(flatten_runs(rest)[b - hl] == y);
                assert(flatten_runs(rest).contains(y));
                lemma_flatten_contains(rest, y);
                let k = choose|k: int|
                    0 <= k < rest.len() && run_blocks(#[trigger] rest[k]).contains(y);
                assert(rest[k] == rs[k + 1]);
                assert(run_pair_disjoint(rs[0], rs[k + 1]));
                assert(x != y);
            }
        }
    }
}

/// Splitting a concatenation that has no duplicates: both parts have
/// none, and they share no element.
proof fn lemma_concat_parts(s: Seq<u32>, a: Seq<u32>, b: Seq<u32>)
    requires
        s == a + b,
        s.no_duplicates(),
    ensures
        a.no_duplicates(),
        b.no_duplicates(),
        seqs_disjoint(a, b),
{
    assert forall|i: int, j: int|
        0 <= i < a.len() && 0 <= j < a.len() && i != j implies a[i] != a[j] by {
        assert(a[i] == s[i] && a[j] == s[j]);
    }
    assert forall|i: int, j: int|
        0 <= i < b.len() && 0 <= j < b.len() && i != j implies b[i] != b[j] by {
        assert(b[i] == s[a.len() + i] && b[j] == s[a.len() + j]);
    }
    assert forall|x: u32| a.contains(x) implies !b.contains(x) by {
        let i = choose|i: int| 0 <= i < a.len() && a[i] == x;
        if b.contains(x) {
            let j = choose|j: int| 0 <= j < b.len() && b[j] == x;
            assert(s[i] == s[a.len() + j]);
        }
    }
}

pub struct Fat {
    pub table: Vec<FatEntry>,
    pub data: Vec<u8>,
    pub block_len: usize,
    pub block_count: usize,
    pub free: Vec<FatRun>,
}

/// A handle to one allocated chain: its runs in chain order.
pub struct FatFile {
    pub runs: Vec<FatRun>,
}

impl Fat {
    pub open spec fn wf(self) -> bool {
        &&& self.block_len > 0
        &&& self.block_count <= 0x0FFF_FFFE
        &&& self.table@.len() == self.block_count + 1
        &&& self.data@.len() == self.block_count * self.block_len
        &&& runs_wf(self.free@, self.block_count as int)
        &&& runs_pairwise_disjoint(self.free@)
    }

    /// The blocks of the free chain, head to tail.
    pub open spec fn free_blocks(self) -> Seq<u32> {
        flatten_runs(self.free@)
    }
}

impl FatFile {
    /// This chain's blocks, in chain order.
    pub open spec fn blocks(self) -> Seq<u32> {
        flatten_runs(self.runs@)
    }

    pub open spec fn wf(self, fat: Fat) -> bool {
        &&& self.runs@.len() >= 1
        &&& runs_wf(self.runs@, fat.block_count as int)
        &&& runs_pairwise_disjoint(self.runs@)
    }

    /// An identical handle to the same chain.
    #[verifier::loop_isolation(false)]
    pub fn duplicate(&self) -> (r: FatFile)
        ensures
            r.runs@ == self.runs@,
    {
        let mut runs: Vec<FatRun> = Vec::new();
        let n = self.runs.len();
        let mut k: usize = 0;
        while k < n
            invariant
                k <= n,
                runs@.len() == k,
                forall|j: int| 0 <= j < k ==> runs@[j] == self.runs@[j],
            decreases n - k,
        {
            runs.push(self.runs[k]);
            k = k + 1;
        }
        proof {
            assert(runs@ =~= self.runs@);
        }
        FatFile { runs }
    }

    /// The table index of the chain's first block.
    pub fn start_block(&self) -> (r: u32)
        requires
            self.runs@.len() >= 1,
            self.runs@[0].len >= 1,
        ensures
            r == self.blocks()[0],
    {
        let r0 = self.runs[0];
        proof {
            assert(run_blocks(self.runs@[0]).len() >= 1);
            assert(self.blocks()[0] == run_blocks(self.runs@[0])[0]);
            assert(run_blocks(self.runs@[0])[0] == ((self.runs@[0].start + 0) as u32));
        }
        r0.start
    }

    /// Number of blocks in the chain.
    #[verifier::loop_isolation(false)]
    pub fn block_count(&self) -> (r: usize)
        requires
            runs_wf(self.runs@, 0x7FFF_FFFE),
            flatten_runs(self.runs@).len() <= usize::MAX,
        ensures
            r == self.blocks().len(),
    {
        let mut total: usize = 0;
        let mut k: usize = 0;
        proof {
            assert(self.runs@.skip(0) =~= self.runs@);
        }
        while k < self.runs.len()
            invariant
                k <= self.runs@.len(),
                total + flatten_runs(self.runs@.skip(k as int)).len() == self.blocks().len(),
            decreases self.runs@.len() - k,
        {
            proof {
                lemma_flatten_skip_succ(self.runs@, k as int);
            }
            total = total + self.runs[k].len as usize;
            k = k + 1;
        }
        total
    }
}

/// Write one decoded slot.
fn set_entry(table: &mut Vec<FatEntry>, i: usize, u: u32, v: u32)
    requires
        i < old(table)@.len(),
    ensures
        final(table)@.len() == old(table)@.len(),
        final(table)@[i as int].u == u,
        final(table)@[i as int].v == v,
        forall|j: int| 0 <= j < old(table)@.len() && j != i ==> final(table)@[j] == old(table)@[j],
{
    table.set(i, FatEntry { u, v });
}

/// Encode one chain's link slots into the table. `first_prev` is the
/// biased previous-node field of the first run's head: 0 for a file
/// chain, 1 (node 0) for the free chain.
#[verifier::loop_isolation(false)]
fn encode_chain(table: &mut Vec<FatEntry>, runs: &Vec<FatRun>, first_prev: u32)
    requires
        old(table)@.len() >= 1,
        old(table)@.len() <= 0x7FFF_FFFF,
        runs_wf(runs@, old(table)@.len() - 1),
    ensures
        final(table)@.len() == old(table)@.len(),
{
    let n = runs.len();
    let mut k: usize = 0;
    while k < n
        invariant
            k <= n,
            table@.len() == old(table)@.len(),
        decreases n - k,
    {
        let r = runs[k];
        let h = r.start;
        let prev_field: u32 = if k == 0 {
            first_prev
        } else {
            runs[k - 1].start + 1
        };
        let next_field: u32 = if k + 1 == n {
            0
        } else {
            runs[k + 1].start + 1
        };
        let expand: u32 = if r.len > 1 {
            0x8000_0000
        } else {
            0
        };
        set_entry(table, h as usize, 0x8000_0000 | prev_field, expand | next_field);
        if r.len > 1 {
            let t = h + r.len - 1;
            if t > h + 1 {
                set_entry(table, (h + 1) as usize, 0, 0x8000_0000 | t);
                set_entry(table, t as usize, h + 1, 0);
            } else {
                set_entry(table, t as usize, h + 1, 0x8000_0000 | t);
            }
        }
        k = k + 1;
    }
}

/// Encode the free chain and the head/tail pointers of slot 0.
fn encode_free(table: &mut Vec<FatEntry>, runs: &Vec<FatRun>)
    requires
        old(table)@.len() >= 1,
        old(table)@.len() <= 0x7FFF_FFFF,
        runs_wf(runs@, old(table)@.len() - 1),
    ensures
        final(table)@.len() == old(table)@.len(),
{
    encode_chain(table, runs, 1);
    let n = runs.len();
    if n == 0 {
        set_entry(table, 0, 0, 0);
    } else {
        let first = runs[0].start;
        let last = runs[n - 1].start;
        set_entry(table, 0, last + 1, first + 1);
    }
}

/// Walk a chain of run heads starting at block `first`, collecting its
/// runs. Rejects out-of-range links, a missing run-head flag, a bad
/// expansion slot, an unexpected previous-node field on the first head,
/// overlapping runs and cycles, all as `BrokenFat`.
#[verifier::loop_isolation(false)]
fn walk_chain(table: &Vec<FatEntry>, first: u32, first_prev: u32) -> (r: Result<Vec<FatRun>, Error>)
    requires
        table@.len() >= 1,
        table@.len() <= 0x7FFF_FFFF,
        first >= 1,
    ensures
        r is Err ==> r == Err::<Vec<FatRun>, Error>(Error::BrokenFat),
        r is Ok ==> {
            let rs = r->Ok_0@;
            &&& rs.len() >= 1
            &&& runs_wf(rs, table@.len() - 1)
            &&& runs_pairwise_disjoint(rs)
            &&& rs[0].start == first
        },
{
    let count = table.len() - 1;
    let mut runs: Vec<FatRun> = Vec::new();
    let mut total: usize = 0;
    let mut cur = first;
    let mut head_prev = first_prev;
    loop
        invariant
            table@.len() == count + 1,
            count <= 0x7FFF_FFFE,
            total <= count,
            runs_wf(runs@, count as int),
            runs@.len() >= 1 ==> runs@[0].start == first,
            1 <= cur,
            runs@.len() == 0 ==> cur == first,
            total >= runs@.len(),
        decreases count - total,
    {
        if cur as usize > count {
            return Err(Error::BrokenFat);
        }
        let e = table[cur as usize];
        if e.u & 0x8000_0000 == 0 {
            return Err(Error::BrokenFat);
        }
        if runs.len() == 0 && (e.u & 0x7FFF_FFFF) != head_prev {
            return Err(Error::BrokenFat);
        }
        let len: u32 = if e.v & 0x8000_0000 != 0 {
            if cur as usize + 1 > count {
                return Err(Error::BrokenFat);
            }
            let t = table[cur as usize + 1].v & 0x7FFF_FFFF;
            if t < cur + 1 || t as usize > count {
                return Err(Error::BrokenFat);
            }
            t - cur + 1
        } else {
            1
        };
        if total + len as usize > count {
            return Err(Error::BrokenFat);
        }
        runs.push(FatRun { start: cur, len });
        total = total + len as usize;
        let next = e.v & 0x7FFF_FFFF;
        proof {
            let ev = e.v;
            assert((ev & 0x7FFF_FFFF) < 0x8000_0000u32) by (bit_vector);
        }
        if next == 0 {
            break;
        }
        cur = next - 1;
        if cur == 0 {
            return Err(Error::BrokenFat);
        }
        head_prev = 0;
    }
    if !check_pairwise_disjoint(&runs) {
        return Err(Error::BrokenFat);
    }
    Ok(runs)
}

/// Whether every pair of distinct runs is block-disjoint.
#[verifier::loop_isolation(false)]
fn check_pairwise_disjoint(runs: &Vec<FatRun>) -> (r: bool)
    requires
        forall|k: int|
            0 <= k < runs@.len() ==> (#[trigger] runs@[k]).start + runs@[k].len <= 0xFFFF_FFFF,
    ensures
        r <==> runs_pairwise_disjoint(runs@),
{
    let n = runs.len();
    let mut i: usize = 0;
    while i < n
        invariant
            i <= n,
            forall|a: int, b: int|
                0 <= a < i && 0 <= b < n && a != b ==> run_pair_disjoint(
                    #[trigger] runs@[a],
                    #[trigger] runs@[b],
                ),
        decreases n - i,
    {
        let mut j: usize = i + 1;
        while j < n
            invariant
                i + 1 <= j <= n,
                i < n,
                forall|b: int| i < b < j ==> run_pair_disjoint(runs@[i as int], #[trigger] runs@[b]),
            decreases n - j,
        {
            let a = runs[i];
            let b = runs[j];
            if !(a.start + a.len <= b.start || b.start + b.len <= a.start) {
                assert(!run_pair_disjoint(runs@[i as int], runs@[j as int]));
                return false;
            }
            j = j + 1;
        }
        i = i + 1;
    }
    true
}

/// Whether every run of `a` is block-disjoint from every run of `b`.
#[verifier::loop_isolation(false)]
fn check_runs_disjoint(a: &Vec<FatRun>, b: &Vec<FatRun>) -> (r: bool)
    requires
        forall|k: int| 0 <= k < a@.len() ==> (#[trigger] a@[k]).start + a@[k].len <= 0xFFFF_FFFF,
        forall|k: int| 0 <= k < b@.len() ==> (#[trigger] b@[k]).start + b@[k].len <= 0xFFFF_FFFF,
    ensures
        r <==> (forall|i: int, j: int|
            0 <= i < a@.len() && 0 <= j < b@.len() ==> run_pair_disjoint(
                #[trigger] a@[i],
                #[trigger] b@[j],
            )),
{
    let n = a.len();
    let m = b.len();
    let mut i: usize = 0;
    while i < n
        invariant
            i <= n,
            forall|x: int, y: int|
                0 <= x < i && 0 <= y < m ==> run_pair_disjoint(#[trigger] a@[x], #[trigger] b@[y]),
        decreases n - i,
    {
        let mut j: usize = 0;
        while j < m
            invariant
                j <= m,
                i < n,
                forall|y: int| 0 <= y < j ==> run_pair_disjoint(a@[i as int], #[trigger] b@[y]),
            decreases m - j,
        {
            let x = a[i];
            let y = b[j];
            if !(x.start + x.len <= y.start || y.start + y.len <= x.start) {
                assert(!run_pair_disjoint(a@[i as int], b@[j as int]));
                return false;
            }
            j = j + 1;
        }
        i = i + 1;
    }
    true
}

/// Pairwise run disjointness of two lists means their block sequences
/// share no index.
proof fn lemma_disjoint_runs_blocks(a: Seq<FatRun>, b: Seq<FatRun>)
    requires
        forall|k: int| 0 <= k < a.len() ==> (#[trigger] a[k]).start + a[k].len <= 0xFFFF_FFFF,
        forall|k: int| 0 <= k < b.len() ==> (#[trigger] b[k]).start + b[k].len <= 0xFFFF_FFFF,
        forall|i: int, j: int|
            0 <= i < a.len() && 0 <= j < b.len() ==> run_pair_disjoint(
                #[trigger] a[i],
                #[trigger] b[j],
            ),
    ensures
        seqs_disjoint(flatten_runs(a), flatten_runs(b)),
{
    assert forall|x: u32| flatten_runs(a).contains(x) implies !flatten_runs(b).contains(x) by {
        lemma_flatten_contains(a, x);
        lemma_flatten_contains(b, x);
        if flatten_runs(b).contains(x) {
            let i = choose|i: int| 0 <= i < a.len() && run_blocks(#[trigger] a[i]).contains(x);
            let j = choose|j: int| 0 <= j < b.len() && run_blocks(#[trigger] b[j]).contains(x);
            let ia = choose|t: int|
                0 <= t < run_blocks(a[i]).len() && run_blocks(a[i])[t] == x;
            let jb = choose|t: int|
                0 <= t < run_blocks(b[j]).len() && run_blocks(b[j])[t] == x;
            assert(x == a[i].start + ia);
            assert(x == b[j].start + jb);
            assert(run_pair_disjoint(a[i], b[j]));
        }
    }
}

impl Fat {
    /// Parse a FAT table region and walk its free chain. The table holds
    /// `count + 1` slots of two little-endian 32-bit words each.
    #[verifier::loop_isolation(false)]
    pub fn new(table_bytes: &Vec<u8>, data: Vec<u8>, block_len: usize) -> (r: Result<Fat, Error>)
        requires
            block_len > 0,
            table_bytes@.len() % 8 == 0,
            table_bytes@.len() >= 8,
            table_bytes@.len() / 8 <= 0x0FFF_FFFF,
            data@.len() == (table_bytes@.len() / 8 - 1) * block_len,
        ensures
            r is Err ==> r == Err::<Fat, Error>(Error::BrokenFat),
            r is Ok ==> {
                let fat = r->Ok_0;
                &&& fat.wf()
                &&& fat.block_count + 1 == table_bytes@.len() / 8
                &&& fat.block_len == block_len
                &&& fat.data@ == data@
                &&& forall|k: int|
                    0 <= k < fat.table@.len() ==> (#[trigger] fat.table@[k]).u == le32(
                        table_bytes@,
                        8 * k,
                    ) && fat.table@[k].v == le32(table_bytes@, 8 * k + 4)
            },
    {
        let slots = table_bytes.len() / 8;
        let count = slots - 1;
        let mut table: Vec<FatEntry> = Vec::new();
        let mut k: usize = 0;
        while k < slots
            invariant
                k <= slots,
                slots * 8 == table_bytes@.len(),
                table@.len() == k,
                forall|j: int|
                    0 <= j < k ==> (#[trigger] table@[j]).u == le32(table_bytes@, 8 * j)
                        && table@[j].v == le32(table_bytes@, 8 * j + 4),
            decreases slots - k,
        {
            let u = read_u32_le(table_bytes, 8 * k);
            let v = read_u32_le(table_bytes, 8 * k + 4);
            table.push(FatEntry { u, v });
            k = k + 1;
        }
        let head = table[0].v & 0x7FFF_FFFF;
        let free: Vec<FatRun> = if head == 0 {
            Vec::new()
        } else {
            if head == 1 {
                return Err(Error::BrokenFat);
            }
            match walk_chain(&table, head - 1, 1) {
                Ok(rs) => rs,
                Err(e) => {
                    return Err(e);
                },
            }
        };
        Ok(Fat { table, data, block_len, block_count: count, free })
    }

    /// Serialize the table back to its on-disk form.
    #[verifier::loop_isolation(false)]
    pub fn table_bytes(&self) -> (r: Vec<u8>)
        requires
            self.wf(),
        ensures
            r@.len() == (self.block_count + 1) * 8,
            forall|k: int|
                0 <= k < self.table@.len() ==> le32(r@, 8 * k) == (#[trigger] self.table@[k]).u
                    && le32(r@, 8 * k + 4) == self.table@[k].v,
    {
        let slots = self.block_count + 1;
        let mut r = crate::bytes::zeros(slots * 8);
        let mut k: usize = 0;
        while k < slots
            invariant
                k <= slots,
                r@.len() == slots * 8,
                self.wf(),
                slots == self.block_count + 1,
                forall|j: int|
                    0 <= j < k ==> le32(r@, 8 * j) == (#[trigger] self.table@[j]).u && le32(
                        r@,
                        8 * j + 4,
                    ) == self.table@[j].v,
            decreases slots - k,
        {
            let e = self.table[k];
            write_u32_le(&mut r, 8 * k, e.u);
            write_u32_le(&mut r, 8 * k + 4, e.v);
            k = k + 1;
        }
        r
    }
}

/// The byte of a chain-backed file at linear offset `i`: block
/// `blocks[i / bl]` of the data region, byte `i % bl` within it.
pub open spec fn file_byte(data: Seq<u8>, blocks: Seq<u32>, bl: int, i: int) -> u8 {
    data[(blocks[i / bl] - 1) * bl + i % bl]
}

/// Whether data index `j` is the image of some file offset in
/// `[pos, pos + n)` under the chain's block mapping.
pub open spec fn mapped_in_range(blocks: Seq<u32>, bl: int, pos: int, n: int, j: int) -> bool {
    exists|i: int| pos <= i < pos + n && j == ((#[trigger] blocks[i / bl]) - 1) * bl + i % bl
}

proof fn lemma_flatten_concat(a: Seq<FatRun>, b: Seq<FatRun>)
    ensures
        flatten_runs(a + b) == flatten_runs(a) + flatten_runs(b),
    decreases a.len(),
{
    if a.len() == 0 {
        assert(a + b =~= b);
        assert(flatten_runs(a) + flatten_runs(b) =~= flatten_runs(b));
    } else {
        lemma_flatten_concat(a.drop_first(), b);
        assert((a + b).len() > 0);
        assert((a + b)[0] == a[0]);
        assert((a + b).drop_first() =~= a.drop_first() + b);
        assert((run_blocks(a[0]) + (flatten_runs(a.drop_first()) + flatten_runs(b))) =~= ((
        run_blocks(a[0]) + flatten_runs(a.drop_first())) + flatten_runs(b)));
        assert(flatten_runs(a + b) =~= flatten_runs(a) + flatten_runs(b));
    }
}

proof fn lemma_flatten_in_range(rs: Seq<FatRun>, count: int)
    requires
        runs_wf(rs, count),
        count <= 0x0FFF_FFFE,
    ensures
        forall|t: int|
            0 <= t < flatten_runs(rs).len() ==> 1 <= #[trigger] flatten_runs(rs)[t] <= count,
{
    assert forall|t: int|
        0 <= t < flatten_runs(rs).len() implies 1 <= #[trigger] flatten_runs(rs)[t]
        <= count by {
        let x = flatten_runs(rs)[t];
        assert(flatten_runs(rs).contains(x));
        lemma_flatten_contains(rs, x);
        let k = choose|k: int| 0 <= k < rs.len() && run_blocks(#[trigger] rs[k]).contains(x);
        let j = choose|j: int| 0 <= j < run_blocks(rs[k]).len() && run_blocks(rs[k])[j] == x;
        assert(x == rs[k].start + j);
    }
}

/// A duplicate-free sequence of block indices inside `1 ..= count`
/// cannot be longer than `count`.
proof fn lemma_bounded_no_dup_len(s: Seq<u32>, count: int)
    requires
        s.no_duplicates(),
        forall|k: int| 0 <= k < s.len() ==> 1 <= #[trigger] s[k] <= count,
        count >= 0,
    ensures
        s.len() <= count,
{
    let t = s.map_values(|x: u32| x as int);
    assert(t.no_duplicates()) by {
        assert forall|i: int, j: int|
            0 <= i < t.len() && 0 <= j < t.len() && i != j implies t[i] != t[j] by {
            assert(t[i] == s[i] as int && t[j] == s[j] as int);
        }
    }
    t.unique_seq_to_set();
    assert(t.to_set().subset_of(vstd::set_lib::set_int_range(1, count + 1))) by {
        assert forall|x: int| t.to_set().contains(x) implies vstd::set_lib::set_int_range(
            1,
            count + 1,
        ).contains(x) by {
            let i = choose|i: int| 0 <= i < t.len() && t[i] == x;
            assert(x == s[i] as int);
        }
    }
    vstd::set_lib::lemma_int_range(1, count + 1);
    vstd::set_lib::lemma_len_subset(t.to_set(), vstd::set_lib::set_int_range(1, count + 1));
}

/// The free chain of a well-formed allocator holds at most `count` blocks.
proof fn lemma_free_len_bound(rs: Seq<FatRun>, count: int)
    requires
        runs_wf(rs, count),
        runs_pairwise_disjoint(rs),
        0 <= count <= 0x0FFF_FFFE,
    ensures
        flatten_runs(rs).len() <= count,
        flatten_runs(rs).no_duplicates(),
{
    lemma_flatten_no_dup(rs);
    lemma_flatten_in_range(rs, count);
    lemma_bounded_no_dup_len(flatten_runs(rs), count);
}

proof fn lemma_div_under(i: int, m: int, bl: int)
    requires
        bl > 0,
        0 <= i < m * bl,
    ensures
        0 <= i / bl < m,
{
    lemma_fundamental_div_mod(i, bl);
    if i / bl >= m {
        lemma_mul_inequality(m, i / bl, bl);
        assert((i / bl) * bl == bl * (i / bl)) by (nonlinear_arith);
    }
}

/// A mapped data index lies inside the data region.
proof fn lemma_mapped_index_bounds(blocks: Seq<u32>, bl: int, count: int, i: int)
    requires
        bl > 0,
        0 <= i < blocks.len() * bl,
        forall|t: int| 0 <= t < blocks.len() ==> 1 <= #[trigger] blocks[t] <= count,
        0 <= count,
    ensures
        0 <= (blocks[i / bl] - 1) * bl + i % bl < count * bl,
{
    lemma_div_under(i, blocks.len() as int, bl);
    lemma_fundamental_div_mod(i, bl);
    let b = blocks[i / bl] as int;
    lemma_mul_inequality(b - 1, count - 1, bl);
    assert((count - 1) * bl + bl == count * bl) by (nonlinear_arith);
    assert((b - 1) * bl >= 0) by (nonlinear_arith)
        requires
            b >= 1,
            bl >= 0,
    ;
}

/// Distinct file offsets of a duplicate-free chain map to distinct
/// data indices.
proof fn lemma_mapped_injective(blocks: Seq<u32>, bl: int, i1: int, i2: int)
    requires
        blocks.no_duplicates(),
        bl > 0,
        0 <= i1 < blocks.len() * bl,
        0 <= i2 < blocks.len() * bl,
        i1 != i2,
    ensures
        (blocks[i1 / bl] - 1) * bl + i1 % bl != (blocks[i2 / bl] - 1) * bl + i2 % bl,
{
    lemma_div_under(i1, blocks.len() as int, bl);
    lemma_div_under(i2, blocks.len() as int, bl);
    lemma_fundamental_div_mod(i1, bl);
    lemma_fundamental_div_mod(i2, bl);
    let b1 = blocks[i1 / bl] as int;
    let b2 = blocks[i2 / bl] as int;
    if i1 / bl == i2 / bl {
        assert(i1 % bl != i2 % bl);
    } else {
        assert(b1 != b2);
        if b1 < b2 {
            lemma_mul_inequality(b1, b2 - 1, bl);
            assert((b1 - 1) * bl + bl == b1 * bl) by (nonlinear_arith);
            assert((b2 - 1) * bl >= b1 * bl);
        } else {
            lemma_mul_inequality(b2, b1 - 1, bl);
            assert((b2 - 1) * bl + bl == b2 * bl) by (nonlinear_arith);
            assert((b1 - 1) * bl >= b2 * bl);
        }
    }
}

/// Number of blocks in a run list.
#[verifier::loop_isolation(false)]
fn count_blocks(runs: &Vec<FatRun>) -> (r: usize)
    requires
        flatten_runs(runs@).len() <= usize::MAX,
    ensures
        r == flatten_runs(runs@).len(),
{
    let mut total: usize = 0;
    let mut k: usize = 0;
    proof {
        assert(runs@.skip(0) =~= runs@);
    }
    while k < runs.len()
        invariant
            k <= runs@.len(),
            total + flatten_runs(runs@.skip(k as int)).len() == flatten_runs(runs@).len(),
        decreases runs@.len() - k,
    {
        proof {
            lemma_flatten_skip_succ(runs@, k as int);
        }
        total = total + runs[k].len as usize;
        k = k + 1;
    }
    proof {
        assert(runs@.skip(runs@.len() as int) =~= Seq::<FatRun>::empty());
    }
    total
}

/// Carve `requested` blocks from the head of the free chain: whole runs
/// first, splitting the last run if oversized. Rewrites the free-chain
/// links in the table and leaves the remainder as the new free chain.
#[verifier::loop_isolation(false)]
#[verifier::rlimit(100)]
fn carve_from_free(fat: &mut Fat, requested: usize) -> (taken: Vec<FatRun>)
    requires
        old(fat).wf(),
        1 <= requested,
        requested <= flatten_runs(old(fat).free@).len(),
    ensures
        final(fat).wf(),
        final(fat).block_len == old(fat).block_len,
        final(fat).block_count == old(fat).block_count,
        final(fat).data@ == old(fat).data@,
        final(fat).table@.len() == old(fat).table@.len(),
        runs_wf(taken@, old(fat).block_count as int),
        runs_pairwise_disjoint(taken@),
        taken@.len() >= 1,
        taken@.len() <= old(fat).free@.len(),
        flatten_runs(taken@).len() == requested,
        old(fat).free_blocks() == flatten_runs(taken@) + final(fat).free_blocks(),
        forall|t: int|
            0 <= t < taken@.len() ==> (#[trigger] taken@[t]).start == old(fat).free@[t].start
                && taken@[t].len <= old(fat).free@[t].len,
        forall|i: int, j: int|
            0 <= i < taken@.len() && 0 <= j < final(fat).free@.len() ==> run_pair_disjoint(
                #[trigger] taken@[i],
                #[trigger] final(fat).free@[j],
            ),
{
    let ghost free0 = fat.free@;
    let ghost count = fat.block_count as int;
    let _flen: usize = fat.free.len();
    let mut taken: Vec<FatRun> = Vec::new();
    let mut acc: usize = 0;
    let mut k: usize = 0;
    proof {
        assert(free0.skip(0) =~= free0);
    }
    while acc < requested
        invariant
            *fat == *old(fat),
            k <= free0.len(),
            acc <= requested,
            taken@.len() == k,
            flatten_runs(free0) == flatten_runs(taken@) + flatten_runs(free0.skip(k as int)),
            acc == flatten_runs(taken@).len(),
            requested - acc <= flatten_runs(free0.skip(k as int)).len(),
            runs_wf(taken@, count),
            forall|t: int|
                0 <= t < taken@.len() ==> (#[trigger] taken@[t]).start == free0[t].start
                    && taken@[t].len <= free0[t].len,
        decreases requested - acc,
    {
        proof {
            if k >= free0.len() {
                assert(free0.skip(k as int) =~= Seq::<FatRun>::empty());
            }
            lemma_flatten_skip_succ(free0, k as int);
        }
        let run = fat.free[k];
        let need = requested - acc;
        if (run.len as usize) <= need {
            let ghost t0 = taken@;
            taken.push(run);
            acc = acc + run.len as usize;
            k = k + 1;
            proof {
                lemma_flatten_push(t0, run);
                assert((flatten_runs(t0) + run_blocks(run)) + flatten_runs(free0.skip(k as int))
                    =~= flatten_runs(t0) + (run_blocks(run) + flatten_runs(
                    free0.skip(k as int),
                )));
            }
        } else {
            let r1 = FatRun { start: run.start, len: need as u32 };
            let r2 = FatRun { start: run.start + need as u32, len: run.len - need as u32 };
            let ghost t0 = taken@;
            taken.push(r1);
            proof {
                lemma_flatten_push(t0, r1);
                assert(run_blocks(run) =~= run_blocks(r1) + run_blocks(r2));
            }
            let mut new_free: Vec<FatRun> = Vec::new();
            new_free.push(r2);
            let mut j: usize = k + 1;
            while j < fat.free.len()
                invariant
                    *fat == *old(fat),
                    k + 1 <= j <= free0.len(),
                    new_free@.len() == 1 + j - (k + 1),
                    new_free@[0] == r2,
                    forall|t: int|
                        1 <= t < new_free@.len() ==> #[trigger] new_free@[t] == free0[k + t],
                decreases free0.len() - j,
            {
                new_free.push(fat.free[j]);
                j = j + 1;
            }
            proof {
                assert(new_free@ =~= seq![r2] + free0.skip(k + 1));
                assert(new_free@.drop_first() =~= free0.skip(k + 1));
                assert(flatten_runs(new_free@) == run_blocks(r2) + flatten_runs(
                    free0.skip(k + 1),
                ));
                assert((flatten_runs(t0) + run_blocks(r1)) + (run_blocks(r2) + flatten_runs(
                    free0.skip(k + 1),
                )) =~= flatten_runs(t0) + ((run_blocks(r1) + run_blocks(r2)) + flatten_runs(
                    free0.skip(k + 1),
                )));
                assert(flatten_runs(free0) =~= flatten_runs(taken@) + flatten_runs(new_free@));
                assert(runs_wf(new_free@, count));
                assert(runs_pairwise_disjoint(new_free@)) by {
                    assert forall|a: int, b: int|
                        0 <= a < new_free@.len() && 0 <= b < new_free@.len() && a
                        != b implies run_pair_disjoint(
                        #[trigger] new_free@[a],
                        #[trigger] new_free@[b],
                    ) by {
                        if a == 0 {
                            assert(new_free@[b] == free0[k + b]);
                            assert(run_pair_disjoint(free0[k as int], free0[k + b]));
                        } else if b == 0 {
                            assert(new_free@[a] == free0[k + a]);
                            assert(run_pair_disjoint(free0[k + a], free0[k as int]));
                        } else {
                            assert(new_free@[a] == free0[k + a]);
                            assert(new_free@[b] == free0[k + b]);
                            assert(run_pair_disjoint(free0[k + a], free0[k + b]));
                        }
                    }
                }
                assert(runs_pairwise_disjoint(taken@)) by {
                    assert forall|a: int, b: int|
                        0 <= a < taken@.len() && 0 <= b < taken@.len() && a
                        != b implies run_pair_disjoint(
                        #[trigger] taken@[a],
                        #[trigger] taken@[b],
                    ) by {
                        assert(run_pair_disjoint(free0[a], free0[b]));
                    }
                }
                assert forall|a: int, b: int|
                    0 <= a < taken@.len() && 0 <= b < new_free@.len() implies run_pair_disjoint(
                    #[trigger] taken@[a],
                    #[trigger] new_free@[b],
                ) by {
                    if b == 0 {
                        if a < taken@.len() - 1 {
                            assert(run_pair_disjoint(free0[a], free0[k as int]));
                        }
                    } else {
                        assert(new_free@[b] == free0[k + b]);
                        assert(run_pair_disjoint(free0[a], free0[k + b]));
                    }
                }
            }
            encode_chain(&mut fat.table, &taken, 0);
            encode_free(&mut fat.table, &new_free);
            fat.free = new_free;
            return taken;
        }
    }
    // every consumed run was whole: the new free chain is the suffix
    let mut new_free: Vec<FatRun> = Vec::new();
    let mut j: usize = k;
    while j < fat.free.len()
        invariant
            *fat == *old(fat),
            k <= j <= free0.len(),
            new_free@.len() == j - k,
            forall|t: int| 0 <= t < new_free@.len() ==> #[trigger] new_free@[t] == free0[k + t],
        decreases free0.len() - j,
    {
        new_free.push(fat.free[j]);
        j = j + 1;
    }
    proof {
        assert(new_free@ =~= free0.skip(k as int));
        assert(runs_wf(new_free@, count));
        assert(runs_pairwise_disjoint(new_free@)) by {
            assert forall|a: int, b: int|
                0 <= a < new_free@.len() && 0 <= b < new_free@.len() && a
                != b implies run_pair_disjoint(#[trigger] new_free@[a], #[trigger] new_free@[b]) by {
                assert(run_pair_disjoint(free0[k + a], free0[k + b]));
            }
        }
        assert(runs_pairwise_disjoint(taken@)) by {
            assert forall|a: int, b: int|
                0 <= a < taken@.len() && 0 <= b < taken@.len() && a != b implies run_pair_disjoint(
                #[trigger] taken@[a],
                #[trigger] taken@[b],
            ) by {
                assert(run_pair_disjoint(free0[a], free0[b]));
            }
        }
        assert forall|a: int, b: int|
            0 <= a < taken@.len() && 0 <= b < new_free@.len() implies run_pair_disjoint(
            #[trigger] taken@[a],
            #[trigger] new_free@[b],
        ) by {
            assert(new_free@[b] == free0[k + b]);
            assert(run_pair_disjoint(free0[a], free0[k + b]));
        }
        assert(taken@.len() >= 1);
    }
    encode_chain(&mut fat.table, &taken, 0);
    encode_free(&mut fat.table, &new_free);
    fat.free = new_free;
    taken
}

proof fn lemma_flatten_push(rs: Seq<FatRun>, r: FatRun)
    ensures
        flatten_runs(rs.push(r)) == flatten_runs(rs) + run_blocks(r),
    decreases rs.len(),
{
    if rs.len() == 0 {
        assert(rs.push(r)[0] == r);
        assert(rs.push(r).drop_first() =~= Seq::<FatRun>::empty());
        assert(flatten_runs(Seq::<FatRun>::empty()) == Seq::<u32>::empty());
        assert(flatten_runs(rs) == Seq::<u32>::empty());
        assert(flatten_runs(rs.push(r)) == run_blocks(rs.push(r)[0]) + flatten_runs(
            rs.push(r).drop_first(),
        ));
        assert(flatten_runs(rs.push(r)) =~= flatten_runs(rs) + run_blocks(r));
    } else {
        lemma_flatten_push(rs.drop_first(), r);
        assert(rs.push(r)[0] == rs[0]);
        assert(rs.push(r).drop_first() =~= rs.drop_first().push(r));
        assert((run_blocks(rs[0]) + (flatten_runs(rs.drop_first()) + run_blocks(r))) =~= ((
        run_blocks(rs[0]) + flatten_runs(rs.drop_first())) + run_blocks(r)));
        assert(flatten_runs(rs.push(r)) =~= flatten_runs(rs) + run_blocks(r));
    }
}

impl FatFile {
    /// Carve `requested_blocks` blocks from the free list, head to tail,
    /// splitting the last consumed run if oversized. Returns the new
    /// chain and the table index of its first block.
    pub fn create(fat: &mut Fat, requested_blocks: usize) -> (r: Result<(FatFile, usize), Error>)
        requires
            old(fat).wf(),
            requested_blocks >= 1,
        ensures
            final(fat).wf(),
            final(fat).block_len == old(fat).block_len,
            final(fat).block_count == old(fat).block_count,
            final(fat).data@ == old(fat).data@,
            final(fat).table@.len() == old(fat).table@.len(),
            (r is Ok) <==> requested_blocks <= old(fat).free_blocks().len(),
            r is Err ==> r == Err::<(FatFile, usize), Error>(Error::NoSpace) && final(fat).free@
                == old(fat).free@ && final(fat).table@ == old(fat).table@,
            r is Ok ==> {
                let f = r->Ok_0.0;
                &&& f.wf(*final(fat))
                &&& f.blocks().len() == requested_blocks
                &&& old(fat).free_blocks() == f.blocks() + final(fat).free_blocks()
                &&& r->Ok_0.1 == f.blocks()[0]
                &&& 1 <= r->Ok_0.1 <= old(fat).block_count
                &&& seqs_disjoint(f.blocks(), final(fat).free_blocks())
            },
    {
        proof {
            lemma_free_len_bound(fat.free@, fat.block_count as int);
        }
        let total = count_blocks(&fat.free);
        if total < requested_blocks {
            return Err(Error::NoSpace);
        }
        let taken = carve_from_free(fat, requested_blocks);
        let f = FatFile { runs: taken };
        let start = f.start_block();
        proof {
            lemma_disjoint_runs_blocks(f.runs@, fat.free@);
            lemma_flatten_in_range(f.runs@, fat.block_count as int);
        }
        Ok((f, start as usize))
    }

    /// Traverse run heads from `block`, accumulating the chain. Corrupt
    /// links, overlaps and cycles surface as `BrokenFat`.
    pub fn open(fat: &Fat, block: usize) -> (r: Result<FatFile, Error>)
        requires
            fat.wf(),
        ensures
            r is Err ==> r == Err::<FatFile, Error>(Error::BrokenFat),
            r is Ok ==> {
                let f = r->Ok_0;
                &&& f.wf(*fat)
                &&& f.blocks()[0] == block
            },
    {
        if block == 0 || block > fat.block_count {
            return Err(Error::BrokenFat);
        }
        match walk_chain(&fat.table, block as u32, 0) {
            Err(e) => Err(e),
            Ok(runs) => {
                let f = FatFile { runs };
                proof {
                    assert(run_blocks(f.runs@[0]).len() >= 1);
                    assert(f.blocks()[0] == run_blocks(f.runs@[0])[0]);
                    assert(run_blocks(f.runs@[0])[0] == ((f.runs@[0].start + 0) as u32));
                }
                Ok(f)
            },
        }
    }

    /// The chain's capacity in bytes.
    pub fn len(&self, fat: &Fat) -> (r: usize)
        requires
            fat.wf(),
            self.wf(*fat),
        ensures
            r == self.blocks().len() * fat.block_len,
    {
        let _dlen: usize = fat.data.len();
        proof {
            lemma_free_len_bound(self.runs@, fat.block_count as int);
        }
        let blocks = self.block_count();
        proof {
            lemma_mul_inequality(
                self.blocks().len() as int,
                fat.block_count as int,
                fat.block_len as int,
            );
        }
        blocks * fat.block_len
    }

    /// The block holding file-block-index `k`.
    #[verifier::loop_isolation(false)]
    fn locate(&self, k: usize) -> (b: u32)
        requires
            runs_wf(self.runs@, 0x0FFF_FFFE),
            k < self.blocks().len(),
        ensures
            b == self.blocks()[k as int],
    {
        let mut j: usize = 0;
        let mut rem = k;
        proof {
            assert(self.runs@.skip(0) =~= self.runs@);
        }
        while j < self.runs.len()
            invariant
                j <= self.runs@.len(),
                rem <= k,
                rem < flatten_runs(self.runs@.skip(j as int)).len(),
                self.blocks()[k as int] == flatten_runs(self.runs@.skip(j as int))[rem as int],
            decreases self.runs@.len() - j,
        {
            let rl = self.runs[j].len as usize;
            proof {
                lemma_flatten_skip_succ(self.runs@, j as int);
            }
            if rem < rl {
                proof {
                    assert(flatten_runs(self.runs@.skip(j as int))[rem as int] == run_blocks(
                        self.runs@[j as int],
                    )[rem as int]);
                }
                return self.runs[j].start + rem as u32;
            }
            rem = rem - rl;
            j = j + 1;
        }
        proof {
            assert(self.runs@.skip(self.runs@.len() as int) =~= Seq::<FatRun>::empty());
            assert(false);
        }
        0
    }

    /// Read `buf.len()` bytes at linear offset `pos` of the chain.
    #[verifier::loop_isolation(false)]
    pub fn read(&self, fat: &Fat, pos: usize, buf: &mut Vec<u8>) -> (r: Result<(), Error>)
        requires
            fat.wf(),
            self.wf(*fat),
        ensures
            final(buf)@.len() == old(buf)@.len(),
            (r is Ok) <==> pos + old(buf)@.len() <= self.blocks().len() * fat.block_len,
            r is Err ==> r == Err::<(), Error>(Error::OutOfBound),
            r is Ok ==> forall|t: int|
                0 <= t < old(buf)@.len() ==> final(buf)@[t] == file_byte(
                    fat.data@,
                    self.blocks(),
                    fat.block_len as int,
                    pos + t,
                ),
    {
        let total = self.len(fat);
        let n = buf.len();
        if n > total || pos > total - n {
            return Err(Error::OutOfBound);
        }
        let bl = fat.block_len;
        let _dlen: usize = fat.data.len();
        let mut t: usize = 0;
        while t < n
            invariant
                t <= n,
                buf@.len() == n,
                forall|q: int|
                    0 <= q < t ==> buf@[q] == file_byte(
                        fat.data@,
                        self.blocks(),
                        bl as int,
                        pos + q,
                    ),
            decreases n - t,
        {
            let p = pos + t;
            proof {
                lemma_div_under(p as int, self.blocks().len() as int, bl as int);
                lemma_flatten_in_range(self.runs@, fat.block_count as int);
            }
            let fb = p / bl;
            let off = p % bl;
            let b = self.locate(fb);
            let idx = data_index(fat, b, off);
            let v = fat.data[idx];
            buf.set(t, v);
            t = t + 1;
        }
        Ok(())
    }

    /// Write the bytes at linear offset `pos` of the chain, straight
    /// through to the data region.
    #[verifier::loop_isolation(false)]
    pub fn write(&self, fat: &mut Fat, pos: usize, buf: &Vec<u8>) -> (r: Result<(), Error>)
        requires
            old(fat).wf(),
            self.wf(*old(fat)),
        ensures
            final(fat).wf(),
            final(fat).block_len == old(fat).block_len,
            final(fat).block_count == old(fat).block_count,
            final(fat).table@ == old(fat).table@,
            final(fat).free@ == old(fat).free@,
            final(fat).data@.len() == old(fat).data@.len(),
            (r is Ok) <==> pos + buf@.len() <= self.blocks().len() * old(fat).block_len,
            r is Err ==> r == Err::<(), Error>(Error::OutOfBound) && final(fat).data@ == old(
                fat,
            ).data@,
            r is Ok ==> forall|t: int|
                0 <= t < buf@.len() ==> file_byte(
                    final(fat).data@,
                    self.blocks(),
                    old(fat).block_len as int,
                    pos + t,
                ) == buf@[t],
            r is Ok ==> forall|j: int|
                0 <= j < old(fat).data@.len() && !mapped_in_range(
                    self.blocks(),
                    old(fat).block_len as int,
                    pos as int,
                    buf@.len() as int,
                    j,
                ) ==> final(fat).data@[j] == old(fat).data@[j],
    {
        let total = self.len(fat);
        let n = buf.len();
        if n > total || pos > total - n {
            return Err(Error::OutOfBound);
        }
        let bl = fat.block_len;
        let _dlen: usize = fat.data.len();
        proof {
            lemma_free_len_bound(self.runs@, fat.block_count as int);
        }
        let mut t: usize = 0;
        while t < n
            invariant
                t <= n,
                fat.wf(),
                fat.block_len == old(fat).block_len,
                bl == fat.block_len,
                fat.block_count == old(fat).block_count,
                fat.table@ == old(fat).table@,
                fat.free@ == old(fat).free@,
                fat.data@.len() == old(fat).data@.len(),
                forall|q: int|
                    0 <= q < t ==> file_byte(fat.data@, self.blocks(), bl as int, pos + q)
                        == buf@[q],
                forall|j: int|
                    0 <= j < old(fat).data@.len() && !mapped_in_range(
                        self.blocks(),
                        bl as int,
                        pos as int,
                        t as int,
                        j,
                    ) ==> fat.data@[j] == old(fat).data@[j],
            decreases n - t,
        {
            let p = pos + t;
            proof {
                lemma_div_under(p as int, self.blocks().len() as int, bl as int);
                lemma_flatten_in_range(self.runs@, fat.block_count as int);
            }
            let fb = p / bl;
            let off = p % bl;
            let b = self.locate(fb);
            let idx = data_index(fat, b, off);
            let v = buf[t];
            let ghost d0 = fat.data@;
            fat.data.set(idx, v);
            proof {
                assert(self.blocks()[((pos + t) as int) / (bl as int)] == b);
                assert(idx as int == ((b as int) - 1) * (bl as int) + ((pos + t) as int) % (
                bl as int));
                assert(file_byte(fat.data@, self.blocks(), bl as int, pos + t) == buf@[t as int]);
                assert forall|q: int|
                    0 <= q < t + 1 implies file_byte(fat.data@, self.blocks(), bl as int, pos + q)
                    == buf@[q] by {
                    if q < t {
                        lemma_mapped_injective(self.blocks(), bl as int, pos + q, pos + t);
                        lemma_mapped_index_bounds(
                            self.blocks(),
                            bl as int,
                            fat.block_count as int,
                            pos + q,
                        );
                        let mq = ((self.blocks()[(pos + q) / (bl as int)]) - 1) * (bl as int) + (
                        pos + q) % (bl as int);
                        assert(mq != idx as int);
                        assert(file_byte(d0, self.blocks(), bl as int, pos + q) == buf@[q]);
                        assert(fat.data@[mq] == d0[mq]);
                    }
                }
                assert forall|j: int|
                    0 <= j < old(fat).data@.len() && !mapped_in_range(
                        self.blocks(),
                        bl as int,
                        pos as int,
                        (t + 1) as int,
                        j,
                    ) implies fat.data@[j] == old(fat).data@[j] by {
                    assert(!mapped_in_range(self.blocks(), bl as int, pos as int, t as int, j));
                    assert(j != idx);
                }
            }
            t = t + 1;
        }
        Ok(())
    }


    /// Grow or shrink the chain to `new_blocks` blocks. Growth carves a
    /// fresh chain from the free list and splices it at the tail;
    /// shrinking splits at the boundary, trimming the boundary run if
    /// needed, and frees the tail onto the free list.
    #[verifier::loop_isolation(false)]
    #[verifier::rlimit(100)]
    pub fn resize(&mut self, fat: &mut Fat, new_blocks: usize) -> (r: Result<(), Error>)
        requires
            old(fat).wf(),
            old(self).wf(*old(fat)),
            new_blocks >= 1,
        ensures
            final(fat).wf(),
            final(self).wf(*final(fat)),
            final(fat).block_len == old(fat).block_len,
            final(fat).block_count == old(fat).block_count,
            final(fat).data@ == old(fat).data@,
            final(fat).table@.len() == old(fat).table@.len(),
            r is Err ==> final(self).runs@ == old(self).runs@ && final(fat).free@ == old(
                fat,
            ).free@ && final(fat).table@ == old(fat).table@,
            (r == Err::<(), Error>(Error::BrokenFat)) <==> (new_blocks != old(self).blocks().len()
                && !run_lists_disjoint(old(self).runs@, old(fat).free@)),
            (r == Err::<(), Error>(Error::NoSpace)) <==> (run_lists_disjoint(
                old(self).runs@,
                old(fat).free@,
            ) && new_blocks > old(self).blocks().len() && old(fat).free_blocks().len() < new_blocks
                - old(self).blocks().len()),
            r is Err ==> (r == Err::<(), Error>(Error::BrokenFat) || r == Err::<(), Error>(
                Error::NoSpace,
            )),
            r is Ok ==> final(self).blocks().len() == new_blocks,
            r is Ok ==> forall|t: int|
                0 <= t < new_blocks && t < old(self).blocks().len() ==> final(self).blocks()[t]
                    == old(self).blocks()[t],
            r is Ok ==> old(self).blocks() + old(fat).free_blocks() == final(self).blocks()
                + final(fat).free_blocks(),
    {
        proof {
            lemma_free_len_bound(self.runs@, fat.block_count as int);
            lemma_free_len_bound(fat.free@, fat.block_count as int);
        }
        let cur = self.block_count();
        let ghost runs0 = self.runs@;
        let ghost free0 = fat.free@;
        if new_blocks == cur {
            return Ok(());
        }
        if !check_runs_disjoint(&self.runs, &fat.free) {
            return Err(Error::BrokenFat);
        }
        proof {
            assert(run_lists_disjoint(runs0, free0));
        }
        if new_blocks > cur {
            let needed = new_blocks - cur;
            let totalf = count_blocks(&fat.free);
            if totalf < needed {
                return Err(Error::NoSpace);
            }
            let carved = carve_from_free(fat, needed);
            let ghost carved0 = carved@;
            proof {
                assert(forall|t: int|
                    0 <= t < carved0.len() ==> (#[trigger] carved0[t]).start == free0[t].start
                        && carved0[t].len <= free0[t].len);
                assert(runs_pairwise_disjoint(carved0));
                assert(flatten_runs(free0) == flatten_runs(carved0) + flatten_runs(fat.free@));
            }
            let mut j: usize = 0;
            let _clen: usize = carved.len();
            while j < carved.len()
                invariant
                    j <= carved0.len(),
                    carved@ == carved0,
                    self.runs@ == runs0 + carved0.subrange(0, j as int),
                decreases carved0.len() - j,
            {
                let x = carved[j];
                self.runs.push(x);
                proof {
                    assert(self.runs@ =~= runs0 + carved0.subrange(0, j + 1));
                }
                j = j + 1;
            }
            proof {
                assert(carved0.subrange(0, carved0.len() as int) =~= carved0);
                lemma_flatten_concat(runs0, carved0);
                assert((flatten_runs(runs0) + (flatten_runs(carved0) + flatten_runs(fat.free@)))
                    =~= ((flatten_runs(runs0) + flatten_runs(carved0)) + flatten_runs(
                    fat.free@,
                )));
                assert(runs_pairwise_disjoint(self.runs@)) by {
                    let rl = runs0.len() as int;
                    assert forall|a: int, b: int|
                        0 <= a < self.runs@.len() && 0 <= b < self.runs@.len() && a
                        != b implies run_pair_disjoint(
                        #[trigger] self.runs@[a],
                        #[trigger] self.runs@[b],
                    ) by {
                        if a < rl && b < rl {
                            assert(run_pair_disjoint(runs0[a], runs0[b]));
                        } else if a >= rl && b >= rl {
                            assert(run_pair_disjoint(carved0[a - rl], carved0[b - rl]));
                        } else if a < rl {
                            assert(carved0[b - rl].start == free0[b - rl].start
                                && carved0[b - rl].len <= free0[b - rl].len);
                            assert(run_pair_disjoint(runs0[a], free0[b - rl]));
                        } else {
                            assert(carved0[a - rl].start == free0[a - rl].start
                                && carved0[a - rl].len <= free0[a - rl].len);
                            assert(run_pair_disjoint(runs0[b], free0[a - rl]));
                        }
                    }
                }
            }
            encode_chain(&mut fat.table, &self.runs, 0);
            Ok(())
        } else {
            let (kept, freed) = split_runs(&self.runs, new_blocks);
            let ghost kept0 = kept@;
            let ghost freed0 = freed@;
            proof {
                assert(forall|t: int|
                    0 <= t < kept0.len() ==> run_within(#[trigger] kept0[t], runs0[t]));
                assert(forall|t: int|
                    0 <= t < kept0.len() ==> (#[trigger] kept0[t]).len >= 1);
                assert(forall|t: int|
                    0 <= t < freed0.len() ==> (#[trigger] freed0[t]).len >= 1);
                assert(forall|t: int|
                    0 <= t < freed0.len() ==> exists|j2: int|
                        0 <= j2 < runs0.len() && run_within(#[trigger] freed0[t], runs0[j2]));
                assert(flatten_runs(runs0) == flatten_runs(kept0) + flatten_runs(freed0));
            }
            let mut new_free = freed;
            let _flen2: usize = fat.free.len();
            let mut j: usize = 0;
            while j < fat.free.len()
                invariant
                    *fat == *old(fat),
                    j <= free0.len(),
                    new_free@ == freed0 + free0.subrange(0, j as int),
                decreases free0.len() - j,
            {
                let x = fat.free[j];
                new_free.push(x);
                proof {
                    assert(new_free@ =~= freed0 + free0.subrange(0, j + 1));
                }
                j = j + 1;
            }
            proof {
                assert(new_free@ =~= freed0 + free0.subrange(0, free0.len() as int));
                assert(free0.subrange(0, free0.len() as int) =~= free0);
                lemma_flatten_concat(freed0, free0);
                assert((flatten_runs(kept0) + (flatten_runs(freed0) + flatten_runs(free0))) =~= ((
                flatten_runs(kept0) + flatten_runs(freed0)) + flatten_runs(free0)));
                assert(runs_wf(new_free@, fat.block_count as int)) by {
                    assert forall|t: int|
                        0 <= t < new_free@.len() implies 1 <= (#[trigger] new_free@[t]).start
                        && new_free@[t].start + new_free@[t].len <= fat.block_count + 1
                        && new_free@[t].len >= 1 by {
                        let fl = freed0.len() as int;
                        if t < fl {
                            assert(new_free@[t] == freed0[t]);
                            let j2 = choose|j2: int|
                                0 <= j2 < runs0.len() && run_within(#[trigger] freed0[t], runs0[j2]);
                            assert(run_within(freed0[t], runs0[j2]));
                            assert(1 <= runs0[j2].start && runs0[j2].start + runs0[j2].len
                                <= fat.block_count + 1);
                            assert(freed0[t].len >= 1);
                        } else {
                            assert(new_free@[t] == free0[t - fl]);
                            assert(1 <= free0[t - fl].start && free0[t - fl].start + free0[t
                                - fl].len <= fat.block_count + 1 && free0[t - fl].len >= 1);
                        }
                    }
                }
                assert(runs_pairwise_disjoint(new_free@)) by {
                    let fl = freed0.len() as int;
                    assert forall|a: int, b: int|
                        0 <= a < new_free@.len() && 0 <= b < new_free@.len() && a
                        != b implies run_pair_disjoint(
                        #[trigger] new_free@[a],
                        #[trigger] new_free@[b],
                    ) by {
                        if a < fl && b < fl {
                            assert(run_pair_disjoint(freed0[a], freed0[b]));
                        } else if a >= fl && b >= fl {
                            assert(run_pair_disjoint(free0[a - fl], free0[b - fl]));
                        } else if a < fl {
                            assert(new_free@[a] == freed0[a]);
                            let j2 = choose|j2: int|
                                0 <= j2 < runs0.len() && run_within(#[trigger] freed0[a], runs0[j2]);
                            assert(run_within(freed0[a], runs0[j2]));
                            assert(run_pair_disjoint(runs0[j2], free0[b - fl]));
                        } else {
                            assert(new_free@[b] == freed0[b]);
                            let j2 = choose|j2: int|
                                0 <= j2 < runs0.len() && run_within(#[trigger] freed0[b], runs0[j2]);
                            assert(run_within(freed0[b], runs0[j2]));
                            assert(run_pair_disjoint(runs0[j2], free0[a - fl]));
                        }
                    }
                }
                assert(runs_wf(kept0, fat.block_count as int)) by {
                    assert forall|t: int|
                        0 <= t < kept0.len() implies 1 <= (#[trigger] kept0[t]).start && kept0[
                        t].start + kept0[t].len <= fat.block_count + 1 && kept0[t].len >= 1 by {
                        assert(run_within(kept0[t], runs0[t]));
                        assert(1 <= runs0[t].start && runs0[t].start + runs0[t].len
                            <= fat.block_count + 1);
                        assert(kept0[t].len >= 1);
                    }
                }
            }
            self.runs = kept;
            encode_chain(&mut fat.table, &self.runs, 0);
            encode_free(&mut fat.table, &new_free);
            fat.free = new_free;
            Ok(())
        }
    }

    /// Unlink the whole chain and prepend it to the free list.
    #[verifier::loop_isolation(false)]
    pub fn delete(self, fat: &mut Fat) -> (r: Result<(), Error>)
        requires
            old(fat).wf(),
            self.wf(*old(fat)),
        ensures
            final(fat).wf(),
            final(fat).block_len == old(fat).block_len,
            final(fat).block_count == old(fat).block_count,
            final(fat).data@ == old(fat).data@,
            final(fat).table@.len() == old(fat).table@.len(),
            (r is Ok) <==> seqs_disjoint(self.blocks(), old(fat).free_blocks()),
            r is Err ==> r == Err::<(), Error>(Error::BrokenFat) && final(fat).free@ == old(
                fat,
            ).free@ && final(fat).table@ == old(fat).table@,
            r is Ok ==> final(fat).free_blocks() == self.blocks() + old(fat).free_blocks(),
    {
        proof {
            lemma_free_len_bound(self.runs@, fat.block_count as int);
            lemma_free_len_bound(fat.free@, fat.block_count as int);
        }
        if !check_runs_disjoint(&self.runs, &fat.free) {
            proof {
                let (i, j) = choose|i: int, j: int|
                    0 <= i < self.runs@.len() && 0 <= j < fat.free@.len() && !run_pair_disjoint(
                        self.runs@[i],
                        fat.free@[j],
                    );
                let a = self.runs@[i];
                let b = fat.free@[j];
                let x = if a.start >= b.start {
                    a.start
                } else {
                    b.start
                };
                assert(run_blocks(a).contains(x as u32)) by {
                    assert(run_blocks(a)[x - a.start] == x as u32);
                }
                assert(run_blocks(b).contains(x as u32)) by {
                    assert(run_blocks(b)[x - b.start] == x as u32);
                }
                lemma_flatten_contains(self.runs@, x as u32);
                lemma_flatten_contains(fat.free@, x as u32);
                assert(!seqs_disjoint(self.blocks(), old(fat).free_blocks()));
            }
            return Err(Error::BrokenFat);
        }
        proof {
            lemma_disjoint_runs_blocks(self.runs@, fat.free@);
        }
        let ghost old_free = fat.free@;
        let _flen: usize = fat.free.len();
        let mut new_free = self.runs;
        let ghost file_runs = new_free@;
        proof {
            assert(new_free@ =~= file_runs + old_free.subrange(0, 0));
        }
        let mut j: usize = 0;
        while j < fat.free.len()
            invariant
                *fat == *old(fat),
                j <= old_free.len(),
                new_free@ == file_runs + old_free.subrange(0, j as int),
            decreases old_free.len() - j,
        {
            let ghost prev = new_free@;
            new_free.push(fat.free[j]);
            proof {
                assert(new_free@ =~= file_runs + old_free.subrange(0, j + 1));
            }
            j = j + 1;
        }
        proof {
            assert(old_free.subrange(0, old_free.len() as int) =~= old_free);
            lemma_flatten_concat(file_runs, old_free);
            assert(runs_wf(new_free@, fat.block_count as int));
            assert(runs_pairwise_disjoint(new_free@)) by {
                let fl = file_runs.len() as int;
                assert forall|a: int, b: int|
                    0 <= a < new_free@.len() && 0 <= b < new_free@.len() && a
                    != b implies run_pair_disjoint(
                    #[trigger] new_free@[a],
                    #[trigger] new_free@[b],
                ) by {
                    if a < fl && b < fl {
                        assert(run_pair_disjoint(file_runs[a], file_runs[b]));
                    } else if a >= fl && b >= fl {
                        assert(run_pair_disjoint(old_free[a - fl], old_free[b - fl]));
                    } else if a < fl {
                        assert(run_pair_disjoint(file_runs[a], old_free[b - fl]));
                    } else {
                        assert(run_pair_disjoint(file_runs[b], old_free[a - fl]));
                    }
                }
            }
        }
        encode_free(&mut fat.table, &new_free);
        fat.free = new_free;
        Ok(())
    }
}

/// FAT conservation: every allocator operation relates the chains it
/// touches by a plain concatenation equation, so the blocks of the free
/// chain and of all file chains together are a fixed multiset and their
/// total count never changes.
pub proof fn lemma_fat_conservation(
    before_file: Seq<u32>,
    before_free: Seq<u32>,
    after_file: Seq<u32>,
    after_free: Seq<u32>,
)
    requires
        before_file + before_free == after_file + after_free,
    ensures
        before_file.to_multiset().add(before_free.to_multiset()) == after_file.to_multiset().add(
            after_free.to_multiset(),
        ),
        before_file.len() + before_free.len() == after_file.len() + after_free.len(),
{
    broadcast use vstd::multiset::group_multiset_axioms;

    lemma_multiset_commutative(before_file, before_free);
    lemma_multiset_commutative(after_file, after_free);
    assert((before_file + before_free).to_multiset() == (after_file + after_free).to_multiset());
    assert(before_file.to_multiset().add(before_free.to_multiset()) =~= after_file.to_multiset()
        .add(after_free.to_multiset()));
    assert((before_file + before_free).len() == before_file.len() + before_free.len());
    assert((after_file + after_free).len() == after_file.len() + after_free.len());
}

/// FAT no-aliasing: a chain carved from a duplicate-free free chain is
/// itself duplicate-free, shares no block with the remaining free
/// chain, and shares no block with any chain that was disjoint from the
/// free chain before the carve.
pub proof fn lemma_fat_no_aliasing(
    carved: Seq<u32>,
    free_before: Seq<u32>,
    free_after: Seq<u32>,
    other: Seq<u32>,
)
    requires
        free_before == carved + free_after,
        free_before.no_duplicates(),
        seqs_disjoint(other, free_before),
    ensures
        carved.no_duplicates(),
        free_after.no_duplicates(),
        seqs_disjoint(carved, free_after),
        seqs_disjoint(carved, other),
{
    lemma_concat_parts(free_before, carved, free_after);
    assert forall|x: u32| carved.contains(x) implies !other.contains(x) by {
        let i = choose|i: int| 0 <= i < carved.len() && carved[i] == x;
        assert(free_before[i] == x);
        assert(free_before.contains(x));
        if other.contains(x) {
            assert(!free_before.contains(x));
        }
    }
}

/// File bytes are stable: after writing `xs` at offset `pos` of a
/// chain, a read of the same range returns exactly `xs`.
pub proof fn lemma_write_read_round_trip(
    data: Seq<u8>,
    blocks: Seq<u32>,
    bl: int,
    pos: int,
    xs: Seq<u8>,
    ys: Seq<u8>,
)
    requires
        forall|t: int| 0 <= t < xs.len() ==> file_byte(data, blocks, bl, pos + t) == xs[t],
        ys.len() == xs.len(),
        forall|t: int| 0 <= t < ys.len() ==> ys[t] == file_byte(data, blocks, bl, pos + t),
    ensures
        ys == xs,
{
    assert(ys =~= xs);
}

/// Resize preserves content: while the first `m` blocks of a chain are
/// kept, every byte within them reads the same.
pub proof fn lemma_resize_preserves_bytes(
    data: Seq<u8>,
    old_blocks: Seq<u32>,
    new_blocks: Seq<u32>,
    bl: int,
    m: int,
)
    requires
        bl > 0,
        0 <= m,
        m <= old_blocks.len(),
        m <= new_blocks.len(),
        forall|t: int| 0 <= t < m ==> new_blocks[t] == old_blocks[t],
    ensures
        forall|i: int|
            0 <= i < m * bl ==> file_byte(data, new_blocks, bl, i) == file_byte(
                data,
                old_blocks,
                bl,
                i,
            ),
{
    assert forall|i: int|
        0 <= i < m * bl implies file_byte(data, new_blocks, bl, i) == file_byte(
        data,
        old_blocks,
        bl,
        i,
    ) by {
        lemma_div_under(i, m, bl);
    }
}


/// `a` covers a sub-range of `b`.
pub open spec fn run_within(a: FatRun, b: FatRun) -> bool {
    b.start <= a.start && a.start + a.len <= b.start + b.len
}

/// Every run of `a` is block-disjoint from every run of `b`.
pub open spec fn run_lists_disjoint(a: Seq<FatRun>, b: Seq<FatRun>) -> bool {
    forall|i: int, j: int|
        0 <= i < a.len() && 0 <= j < b.len() ==> run_pair_disjoint(
            #[trigger] a[i],
            #[trigger] b[j],
        )
}

/// Split a run list at block index `keep`: whole runs first, cutting
/// the boundary run in two if the split falls inside it.
#[verifier::loop_isolation(false)]
#[verifier::rlimit(100)]
fn split_runs(runs: &Vec<FatRun>, keep: usize) -> (r: (Vec<FatRun>, Vec<FatRun>))
    requires
        runs_wf(runs@, 0x0FFF_FFFE),
        runs_pairwise_disjoint(runs@),
        1 <= keep < flatten_runs(runs@).len(),
        flatten_runs(runs@).len() <= usize::MAX,
    ensures
        flatten_runs(runs@) == flatten_runs(r.0@) + flatten_runs(r.1@),
        flatten_runs(r.0@).len() == keep,
        r.0@.len() >= 1,
        r.1@.len() >= 1,
        r.0@.len() <= runs@.len(),
        runs_pairwise_disjoint(r.0@),
        runs_pairwise_disjoint(r.1@),
        forall|t: int| 0 <= t < r.0@.len() ==> (#[trigger] r.0@[t]).len >= 1,
        forall|t: int| 0 <= t < r.1@.len() ==> (#[trigger] r.1@[t]).len >= 1,
        forall|t: int| 0 <= t < r.0@.len() ==> run_within(#[trigger] r.0@[t], runs@[t]),
        forall|t: int|
            0 <= t < r.1@.len() ==> exists|j: int|
                0 <= j < runs@.len() && run_within(#[trigger] r.1@[t], runs@[j]),
        forall|i: int, j: int|
            0 <= i < r.0@.len() && 0 <= j < r.1@.len() ==> run_pair_disjoint(
                #[trigger] r.0@[i],
                #[trigger] r.1@[j],
            ),
{
    let ghost rs0 = runs@;
    let _rlen: usize = runs.len();
    let mut kept: Vec<FatRun> = Vec::new();
    let mut acc: usize = 0;
    let mut k: usize = 0;
    proof {
        assert(rs0.skip(0) =~= rs0);
    }
    while acc < keep
        invariant
            k <= rs0.len(),
            acc <= keep,
            kept@.len() == k,
            flatten_runs(rs0) == flatten_runs(kept@) + flatten_runs(rs0.skip(k as int)),
            acc == flatten_runs(kept@).len(),
            keep - acc <= flatten_runs(rs0.skip(k as int)).len(),
            forall|t: int|
                0 <= t < kept@.len() ==> (#[trigger] kept@[t]).start == rs0[t].start
                    && kept@[t].len <= rs0[t].len && kept@[t].len >= 1,
        decreases keep - acc,
    {
        proof {
            if k >= rs0.len() {
                assert(rs0.skip(k as int) =~= Seq::<FatRun>::empty());
            }
            lemma_flatten_skip_succ(rs0, k as int);
        }
        let run = runs[k];
        let need = keep - acc;
        if (run.len as usize) <= need {
            let ghost t0 = kept@;
            kept.push(run);
            acc = acc + run.len as usize;
            k = k + 1;
            proof {
                lemma_flatten_push(t0, run);
                assert((flatten_runs(t0) + run_blocks(run)) + flatten_runs(rs0.skip(k as int))
                    =~= flatten_runs(t0) + (run_blocks(run) + flatten_runs(rs0.skip(k as int))));
            }
        } else {
            let r1 = FatRun { start: run.start, len: need as u32 };
            let r2 = FatRun { start: run.start + need as u32, len: run.len - need as u32 };
            let ghost t0 = kept@;
            kept.push(r1);
            proof {
                lemma_flatten_push(t0, r1);
                assert(run_blocks(run) =~= run_blocks(r1) + run_blocks(r2));
            }
            let mut rest: Vec<FatRun> = Vec::new();
            rest.push(r2);
            let mut j: usize = k + 1;
            while j < runs.len()
                invariant
                    k + 1 <= j <= rs0.len(),
                    rest@.len() == 1 + j - (k + 1),
                    rest@[0] == r2,
                    forall|t: int| 1 <= t < rest@.len() ==> #[trigger] rest@[t] == rs0[k + t],
                decreases rs0.len() - j,
            {
                rest.push(runs[j]);
                j = j + 1;
            }
            proof {
                assert(rest@ =~= seq![r2] + rs0.skip(k + 1));
                assert(rest@.drop_first() =~= rs0.skip(k + 1));
                assert(flatten_runs(rest@) == run_blocks(r2) + flatten_runs(rs0.skip(k + 1)));
                assert((flatten_runs(t0) + run_blocks(r1)) + (run_blocks(r2) + flatten_runs(
                    rs0.skip(k + 1),
                )) =~= flatten_runs(t0) + ((run_blocks(r1) + run_blocks(r2)) + flatten_runs(
                    rs0.skip(k + 1),
                )));
                assert(flatten_runs(rs0) =~= flatten_runs(kept@) + flatten_runs(rest@));
                assert(runs_pairwise_disjoint(kept@)) by {
                    assert forall|a: int, b: int|
                        0 <= a < kept@.len() && 0 <= b < kept@.len() && a
                        != b implies run_pair_disjoint(
                        #[trigger] kept@[a],
                        #[trigger] kept@[b],
                    ) by {
                        assert(run_pair_disjoint(rs0[a], rs0[b]));
                    }
                }
                assert(runs_pairwise_disjoint(rest@)) by {
                    assert forall|a: int, b: int|
                        0 <= a < rest@.len() && 0 <= b < rest@.len() && a
                        != b implies run_pair_disjoint(
                        #[trigger] rest@[a],
                        #[trigger] rest@[b],
                    ) by {
                        if a == 0 {
                            assert(rest@[b] == rs0[k + b]);
                            assert(run_pair_disjoint(rs0[k as int], rs0[k + b]));
                        } else if b == 0 {
                            assert(rest@[a] == rs0[k + a]);
                            assert(run_pair_disjoint(rs0[k + a], rs0[k as int]));
                        } else {
                            assert(rest@[a] == rs0[k + a]);
                            assert(rest@[b] == rs0[k + b]);
                            assert(run_pair_disjoint(rs0[k + a], rs0[k + b]));
                        }
                    }
                }
                assert forall|t: int|
                    0 <= t < rest@.len() implies exists|j2: int|
                    0 <= j2 < rs0.len() && run_within(#[trigger] rest@[t], rs0[j2]) by {
                    if t == 0 {
                        assert(run_within(rest@[0], rs0[k as int]));
                    } else {
                        assert(rest@[t] == rs0[k + t]);
                        assert(run_within(rest@[t], rs0[k + t]));
                    }
                }
                assert forall|a: int, b: int|
                    0 <= a < kept@.len() && 0 <= b < rest@.len() implies run_pair_disjoint(
                    #[trigger] kept@[a],
                    #[trigger] rest@[b],
                ) by {
                    if b == 0 {
                        if a < kept@.len() - 1 {
                            assert(run_pair_disjoint(rs0[a], rs0[k as int]));
                        }
                    } else {
                        assert(rest@[b] == rs0[k + b]);
                        assert(run_pair_disjoint(rs0[a], rs0[k + b]));
                    }
                }
            }
            return (kept, rest);
        }
    }
    // the split falls exactly on a run boundary
    let mut rest: Vec<FatRun> = Vec::new();
    let mut j: usize = k;
    while j < runs.len()
        invariant
            k <= j <= rs0.len(),
            rest@.len() == j - k,
            forall|t: int| 0 <= t < rest@.len() ==> #[trigger] rest@[t] == rs0[k + t],
        decreases rs0.len() - j,
    {
        rest.push(runs[j]);
        j = j + 1;
    }
    proof {
        assert(rest@ =~= rs0.skip(k as int));
        assert(rest@.len() >= 1) by {
            if rest@.len() == 0 {
                assert(flatten_runs(rs0.skip(k as int)) =~= Seq::<u32>::empty());
            }
        }
        assert(runs_pairwise_disjoint(kept@)) by {
            assert forall|a: int, b: int|
                0 <= a < kept@.len() && 0 <= b < kept@.len() && a != b implies run_pair_disjoint(
                #[trigger] kept@[a],
                #[trigger] kept@[b],
            ) by {
                assert(run_pair_disjoint(rs0[a], rs0[b]));
            }
        }
        assert(runs_pairwise_disjoint(rest@)) by {
            assert forall|a: int, b: int|
                0 <= a < rest@.len() && 0 <= b < rest@.len() && a != b implies run_pair_disjoint(
                #[trigger] rest@[a],
                #[trigger] rest@[b],
            ) by {
                assert(run_pair_disjoint(rs0[k + a], rs0[k + b]));
            }
        }
        assert forall|t: int|
            0 <= t < rest@.len() implies exists|j2: int|
            0 <= j2 < rs0.len() && run_within(#[trigger] rest@[t], rs0[j2]) by {
            assert(rest@[t] == rs0[k + t]);
            assert(run_within(rest@[t], rs0[k + t]));
        }
        assert forall|a: int, b: int|
            0 <= a < kept@.len() && 0 <= b < rest@.len() implies run_pair_disjoint(
            #[trigger] kept@[a],
            #[trigger] rest@[b],
        ) by {
            assert(rest@[b] == rs0[k + b]);
            assert(run_pair_disjoint(rs0[a], rs0[k + b]));
        }
        assert(kept@.len() >= 1);
    }
    (kept, rest)
}

/// The data index of byte `off` of block `b`.
fn data_index(fat: &Fat, b: u32, off: usize) -> (r: usize)
    requires
        fat.wf(),
        1 <= b <= fat.block_count,
        off < fat.block_len,
    ensures
        r == (b - 1) * fat.block_len + off,
        r < fat.data@.len(),
{
    let _dlen: usize = fat.data.len();
    proof {
        let bi = b as int;
        let bl = fat.block_len as int;
        let count = fat.block_count as int;
        lemma_mul_inequality(bi - 1, count - 1, bl);
        assert((count - 1) * bl + bl == count * bl) by (nonlinear_arith);
        assert((bi - 1) * bl >= 0) by (nonlinear_arith)
            requires
                bi >= 1,
                bl >= 0,
        ;
    }
    (b as usize - 1) * fat.block_len + off
}

} // verus!
