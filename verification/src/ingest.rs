//! Ingestion of the classification stream: the home/foreign policy,
//! deduplication of the raw foreign blocks, aggregation, and rendering of
//! the final list with its summary counts.

use vstd::prelude::*;
use crate::block::NetworkBlock;
use crate::block::mask_spec;
use crate::sweep::all_wf;
use crate::sweep::canonical_seq;
use crate::sweep::covers;
use crate::sweep::optimize_blocks_simple;
use crate::text::block_text;

verus! {

/// One record of the classification stream: an IPv4 network as a raw
/// address and prefix length, with an optional classification code.
pub struct ClassifiedRecord {
    pub address: u32,
    pub prefix_len: u8,
    pub classification: Option<String>,
}

/// A record is home when its classification equals the home code. An
/// unclassified record is never home: it defaults to foreign.
pub open spec fn is_home_spec(r: ClassifiedRecord, home: Seq<char>) -> bool {
    match r.classification {
        Option::Some(code) => code@ == home,
        Option::None => false,
    }
}

/// A block can be built from the record: the prefix fits a 32-bit address.
pub open spec fn is_valid_spec(r: ClassifiedRecord) -> bool {
    r.prefix_len <= 32
}

/// The canonical block a record denotes.
pub open spec fn record_block(r: ClassifiedRecord) -> NetworkBlock {
    NetworkBlock { network: r.address & mask_spec(r.prefix_len), prefix_len: r.prefix_len }
}

/// How many records are home-classified.
pub open spec fn count_home(rs: Seq<ClassifiedRecord>, home: Seq<char>) -> int
    decreases rs.len(),
{
    if rs.len() == 0 {
        0int
    } else {
        count_home(rs.drop_last(), home) + if is_home_spec(rs.last(), home) {
            1int
        } else {
            0int
        }
    }
}

/// How many foreign records were skipped for an invalid prefix length.
pub open spec fn count_skipped(rs: Seq<ClassifiedRecord>, home: Seq<char>) -> int
    decreases rs.len(),
{
    if rs.len() == 0 {
        0int
    } else {
        count_skipped(rs.drop_last(), home) + if !is_home_spec(rs.last(), home) && !is_valid_spec(
            rs.last(),
        ) {
            1int
        } else {
            0int
        }
    }
}

/// The deduplicated blocks of the foreign records with valid prefixes.
pub open spec fn foreign_set(rs: Seq<ClassifiedRecord>, home: Seq<char>) -> Set<NetworkBlock> {
    Set::new(
        |b: NetworkBlock|
            exists|i: int|
                0 <= i < rs.len() && !is_home_spec(#[trigger] rs[i], home) && is_valid_spec(rs[i])
                    && record_block(rs[i]) == b,
    )
}

/// Address `a` belongs to the network of some foreign record.
pub open spec fn foreign_covers(rs: Seq<ClassifiedRecord>, home: Seq<char>, a: u32) -> bool {
    exists|i: int|
        0 <= i < rs.len() && !is_home_spec(#[trigger] rs[i], home) && is_valid_spec(rs[i])
            && record_block(rs[i]).in_range(a)
}

/// A deduplicating set of blocks, keyed by the whole (network, prefix
/// length) pair so that distinct prefixes at one address stay distinct.
pub struct BlockSet {
    blocks: Vec<NetworkBlock>,
}

impl View for BlockSet {
    type V = Set<NetworkBlock>;

    closed spec fn view(&self) -> Set<NetworkBlock> {
        self.blocks@.to_set()
    }
}

impl BlockSet {
    /// The held blocks are pairwise distinct and canonical.
    pub closed spec fn inv(&self) -> bool {
        self.blocks@.no_duplicates() && all_wf(self.blocks@)
    }

    /// An empty set.
    pub fn new() -> (r: BlockSet)
        ensures
            r.inv(),
            r@ == Set::<NetworkBlock>::empty(),
    {
        let r = BlockSet { blocks: Vec::new() };
        proof {
            assert(r.blocks@.to_set() =~= Set::<NetworkBlock>::empty());
        }
        r
    }

    /// Membership test.
    pub fn contains(&self, b: &NetworkBlock) -> (r: bool)
        ensures
            r == self@.contains(*b),
    {
        let mut k: usize = 0;
        while k < self.blocks.len()
            invariant
                k <= self.blocks@.len(),
                forall|j: int| 0 <= j < k ==> self.blocks@[j] != *b,
            decreases self.blocks@.len() - k,
        {
            if self.blocks[k] == *b {
                return true;
            }
            k += 1;
        }
        proof {
            assert(!self.blocks@.contains(*b));
        }
        false
    }

    /// Inserts a block; a block already held is left alone.
    pub fn insert(&mut self, b: NetworkBlock)
        requires
            old(self).inv(),
            b.wf(),
        ensures
            final(self).inv(),
            final(self)@ == old(self)@.insert(b),
    {
        if !self.contains(&b) {
            let ghost pre = self.blocks@;
            self.blocks.push(b);
            proof {
                pre.lemma_push_to_set_commute(b);
                assert forall|i: int, j: int|
                    0 <= i < self.blocks@.len() && 0 <= j < self.blocks@.len() && i
                        != j implies self.blocks@[i] != self.blocks@[j] by {
                    if i < pre.len() && j < pre.len() {
                        assert(pre[i] != pre[j]);
                    } else if i < pre.len() {
                        assert(!pre.contains(b) && pre[i] == self.blocks@[i]);
                    } else if j < pre.len() {
                        assert(!pre.contains(b) && pre[j] == self.blocks@[j]);
                    }
                }
            }
        } else {
            proof {
                assert(self.blocks@.to_set() =~= self.blocks@.to_set().insert(b));
            }
        }
    }

    /// The number of distinct blocks held.
    pub fn len(&self) -> (n: usize)
        requires
            self.inv(),
        ensures
            n == self@.len(),
    {
        proof {
            self.blocks@.unique_seq_to_set();
        }
        self.blocks.len()
    }

    /// Hands the blocks out as an unordered list without duplicates.
    pub fn into_blocks(self) -> (r: Vec<NetworkBlock>)
        requires
            self.inv(),
        ensures
            r@.to_set() == self@,
            r@.no_duplicates(),
            all_wf(r@),
    {
        self.blocks
    }
}

/// The outcome of one full run: the minimal foreign block list, its text
/// rendering in ascending address order, and the summary counts.
pub struct RunSummary {
    /// Canonical `"a.b.c.d/p"` strings of `blocks`, in the same order.
    pub foreign: Vec<String>,
    /// The aggregated foreign blocks, ascending, disjoint, merge-free.
    pub blocks: Vec<NetworkBlock>,
    /// Records consumed.
    pub total_records: usize,
    /// Records classified with the home code, dropped from the output.
    pub home_records: usize,
    /// Foreign records skipped for an invalid prefix length.
    pub skipped_records: usize,
    /// Distinct foreign blocks before aggregation.
    pub foreign_before: usize,
    /// Blocks after aggregation.
    pub foreign_after: usize,
}

/// A step of the stream extends the foreign set by the record's block
/// exactly when the record is foreign and valid.
proof fn lemma_foreign_set_step(rs: Seq<ClassifiedRecord>, home: Seq<char>, i: int)
    requires
        0 <= i < rs.len(),
    ensures
        !is_home_spec(rs[i], home) && is_valid_spec(rs[i]) ==> foreign_set(rs.take(i + 1), home)
            == foreign_set(rs.take(i), home).insert(record_block(rs[i])),
        is_home_spec(rs[i], home) || !is_valid_spec(rs[i]) ==> foreign_set(rs.take(i + 1), home)
            == foreign_set(rs.take(i), home),
{
    let t0 = rs.take(i);
    let t1 = rs.take(i + 1);
    assert forall|b: NetworkBlock| foreign_set(t1, home).contains(b) implies foreign_set(
        t0,
        home,
    ).contains(b) || (!is_home_spec(rs[i], home) && is_valid_spec(rs[i]) && record_block(rs[i])
        == b) by {
        let k = choose|k: int|
            0 <= k < t1.len() && !is_home_spec(#[trigger] t1[k], home) && is_valid_spec(t1[k])
                && record_block(t1[k]) == b;
        if k < i {
            assert(t0[k] == t1[k]);
            assert(!is_home_spec(t0[k], home) && is_valid_spec(t0[k]) && record_block(t0[k]) == b);
        } else {
            assert(t1[k] == rs[i]);
        }
    }
    assert forall|b: NetworkBlock| foreign_set(t0, home).contains(b) implies foreign_set(
        t1,
        home,
    ).contains(b) by {
        let k = choose|k: int|
            0 <= k < t0.len() && !is_home_spec(#[trigger] t0[k], home) && is_valid_spec(t0[k])
                && record_block(t0[k]) == b;
        assert(t1[k] == t0[k]);
        assert(!is_home_spec(t1[k], home) && is_valid_spec(t1[k]) && record_block(t1[k]) == b);
    }
    if !is_home_spec(rs[i], home) && is_valid_spec(rs[i]) {
        assert(t1[i] == rs[i]);
        assert(foreign_set(t1, home).contains(record_block(rs[i])));
        assert(foreign_set(t1, home) =~= foreign_set(t0, home).insert(record_block(rs[i])));
    } else {
        assert(foreign_set(t1, home) =~= foreign_set(t0, home));
    }
}

/// An address is covered by a foreign record exactly when it lies in a
/// block of the deduplicated foreign set.
proof fn lemma_foreign_covers_set(rs: Seq<ClassifiedRecord>, home: Seq<char>)
    ensures
        forall|a: u32|
            foreign_covers(rs, home, a) <==> exists|b: NetworkBlock|
                foreign_set(rs, home).contains(b) && (#[trigger] b.in_range(a)),
{
    assert forall|a: u32| foreign_covers(rs, home, a) implies exists|b: NetworkBlock|
        foreign_set(rs, home).contains(b) && (#[trigger] b.in_range(a)) by {
        let i = choose|i: int|
            0 <= i < rs.len() && !is_home_spec(#[trigger] rs[i], home) && is_valid_spec(rs[i])
                && record_block(rs[i]).in_range(a);
        let b = record_block(rs[i]);
        assert(foreign_set(rs, home).contains(b) && b.in_range(a));
    }
    assert forall|a: u32|
        exists|b: NetworkBlock| foreign_set(rs, home).contains(b) && (
        #[trigger] b.in_range(a)) implies foreign_covers(rs, home, a) by {
        let b = choose|b: NetworkBlock| foreign_set(rs, home).contains(b) && b.in_range(a);
        let i = choose|i: int|
            0 <= i < rs.len() && !is_home_spec(#[trigger] rs[i], home) && is_valid_spec(rs[i])
                && record_block(rs[i]) == b;
        assert(record_block(rs[i]).in_range(a));
    }
}

/// A list covers an address exactly when some block of its set does.
proof fn lemma_covers_to_set(s: Seq<NetworkBlock>)
    ensures
        forall|a: u32|
            covers(s, a) <==> exists|b: NetworkBlock|
                s.to_set().contains(b) && (#[trigger] b.in_range(a)),
{
    assert forall|a: u32| covers(s, a) implies exists|b: NetworkBlock|
        s.to_set().contains(b) && (#[trigger] b.in_range(a)) by {
        let i = choose|i: int| 0 <= i < s.len() && (#[trigger] s[i]).in_range(a);
        assert(s.to_set().contains(s[i]) && s[i].in_range(a));
    }
    assert forall|a: u32|
        exists|b: NetworkBlock| s.to_set().contains(b) && (#[trigger] b.in_range(a)) implies covers(
        s,
        a,
    ) by {
        let b = choose|b: NetworkBlock| s.to_set().contains(b) && b.in_range(a);
        let i = choose|i: int| 0 <= i < s.len() && s[i] == b;
        assert(s[i].in_range(a));
    }
}

/// Walks the stream once: counts home records and invalid foreign records,
/// and collects the remaining foreign blocks into the deduplicating set.
#[verifier::loop_isolation(false)]
fn ingest_records(records: &Vec<ClassifiedRecord>, home: &String) -> (r: (BlockSet, usize, usize))
    ensures
        r.0.inv(),
        r.0@ == foreign_set(records@, home@),
        r.1 == count_home(records@, home@),
        r.2 == count_skipped(records@, home@),
{
    let mut set = BlockSet::new();
    let mut home_records: usize = 0;
    let mut skipped_records: usize = 0;
    let mut i: usize = 0;
    while i < records.len()
        invariant
            i <= records@.len(),
            set.inv(),
            home_records <= i,
            skipped_records <= i,
            home_records == count_home(records@.take(i as int), home@),
            skipped_records == count_skipped(records@.take(i as int), home@),
            set@ == foreign_set(records@.take(i as int), home@),
        decreases records@.len() - i,
    {
        let r = &records[i];
        let ghost t1 = records@.take(i as int + 1);
        proof {
            assert(t1.drop_last() =~= records@.take(i as int));
            assert(t1.last() == records@[i as int]);
            lemma_foreign_set_step(records@, home@, i as int);
        }
        let home_hit = match &r.classification {
            Some(code) => code.eq(home),
            None => false,
        };
        if home_hit {
            home_records += 1;
        } else if r.prefix_len > 32 {
            skipped_records += 1;
        } else {
            match NetworkBlock::new(r.address, r.prefix_len) {
                Ok(b) => {
                    set.insert(b);
                },
                Err(_) => {
                    proof {
                        assert(false);
                    }
                },
            }
        }
        i += 1;
    }
    proof {
        assert(records@.take(records@.len() as int) =~= records@);
    }
    (set, home_records, skipped_records)
}

/// Renders each block of the list as canonical text, keeping the order.
#[verifier::loop_isolation(false)]
fn render_blocks(blocks: &Vec<NetworkBlock>) -> (r: Vec<String>)
    ensures
        r@.len() == blocks@.len(),
        forall|k: int| 0 <= k < r@.len() ==> (#[trigger] r@[k])@ == block_text(blocks@[k]),
{
    let mut out: Vec<String> = Vec::new();
    let mut j: usize = 0;
    while j < blocks.len()
        invariant
            j <= blocks@.len(),
            out@.len() == j,
            forall|k: int| 0 <= k < j ==> (#[trigger] out@[k])@ == block_text(blocks@[k]),
        decreases blocks@.len() - j,
    {
        let text = blocks[j].to_string();
        out.push(text);
        j += 1;
    }
    out
}

/// Consumes the whole classification stream: counts every record, drops the
/// home-classified ones, skips foreign records whose prefix is invalid,
/// deduplicates the rest, aggregates them to the minimal block list and
/// renders it in ascending address order.
pub fn process_records(records: Vec<ClassifiedRecord>, home: &String) -> (summary: RunSummary)
    ensures
        summary.total_records == records@.len(),
        summary.home_records == count_home(records@, home@),
        summary.skipped_records == count_skipped(records@, home@),
        summary.foreign_before == foreign_set(records@, home@).len(),
        canonical_seq(summary.blocks@),
        forall|a: u32| covers(summary.blocks@, a) <==> foreign_covers(records@, home@, a),
        summary.foreign_after == summary.blocks@.len(),
        summary.foreign@.len() == summary.blocks@.len(),
        forall|k: int|
            0 <= k < summary.foreign@.len() ==> (#[trigger] summary.foreign@[k])@ == block_text(
                summary.blocks@[k],
            ),
{
    let (set, home_records, skipped_records) = ingest_records(&records, home);
    let foreign_before = set.len();
    let blocks_vec = set.into_blocks();
    let ghost raw = blocks_vec@;
    proof {
        lemma_covers_to_set(raw);
        lemma_foreign_covers_set(records@, home@);
    }
    let optimized = optimize_blocks_simple(blocks_vec);
    let foreign = render_blocks(&optimized);
    let foreign_after = optimized.len();
    let total_records = records.len();
    RunSummary {
        foreign,
        blocks: optimized,
        total_records,
        home_records,
        skipped_records,
        foreign_before,
        foreign_after,
    }
}

} // verus!
