//! Counting a body that arrives in chunks. Each chunk is read into the same buffer, counted and
//! discarded, so that memory stays flat however long the body is.
use vstd::prelude::*;

verus! {

/// The size of the buffer that chunks are read into.
pub const CHUNK: usize = 65536;

/// What came of a read.
#[derive(Debug, Clone, Copy, PartialEq, Eq, Structural)]
pub enum ReadStatus {
    /// So many bytes were read.
    Complete(usize),
    /// The writer is gone: the body is at its end.
    Dropped,
    /// The read was cancelled.
    Cancelled,
}

/// What to do after a read.
#[derive(Debug, Clone, Copy, PartialEq, Eq, Structural)]
pub enum BodyStep {
    /// Read the next chunk, into a buffer that was emptied.
    Read,
    /// The body was counted: so many bytes.
    Finish(u64),
}

/// The bytes that some reads brought, up to the one that ends the body.
pub open spec fn counted(reads: Seq<ReadStatus>) -> nat
    decreases reads.len(),
{
    if reads.len() == 0 {
        0
    } else {
        match reads[0] {
            ReadStatus::Complete(n) => n as nat + counted(reads.drop_first()),
            _ => 0,
        }
    }
}

/// The bytes of a body that were counted so far.
#[derive(Debug, Clone, Copy, PartialEq, Eq, Structural)]
pub struct BodyCount {
    pub total: u64,
}

impl BodyCount {
    /// The count of a body before its first read.
    pub fn new() -> (r: Self)
        ensures
            r.total == 0,
    {
        BodyCount { total: 0 }
    }

    /// The step that follows a read.
    pub open spec fn step(self, status: ReadStatus) -> BodyStep {
        match status {
            ReadStatus::Complete(_) => BodyStep::Read,
            _ => BodyStep::Finish(self.total),
        }
    }

    /// The count after a read.
    pub open spec fn after(self, status: ReadStatus) -> BodyCount {
        match status {
            ReadStatus::Complete(n) => BodyCount { total: (self.total + n) as u64 },
            _ => self,
        }
    }

    /// Whether the count can take a read.
    pub open spec fn takes(self, status: ReadStatus) -> bool {
        status matches ReadStatus::Complete(n) ==> self.total + n <= u64::MAX
    }

    /// Takes note of a read and says what to do next.
    pub fn on_read(&mut self, status: ReadStatus) -> (r: BodyStep)
        requires
            old(self).takes(status),
        ensures
            r == old(self).step(status),
            *final(self) == old(self).after(status),
    {
        match status {
            ReadStatus::Complete(n) => {
                self.total = self.total + n as u64;
                BodyStep::Read
            },
            ReadStatus::Dropped => BodyStep::Finish(self.total),
            ReadStatus::Cancelled => BodyStep::Finish(self.total),
        }
    }
}

/// Counts the bytes that some reads brought, up to the one that ends the body, or up to the last
/// where none does. `None` where the count does not fit.
pub fn process_body(reads: &Vec<ReadStatus>) -> (r: Option<u64>)
    ensures
        match r {
            Some(total) => total == counted(reads@),
            None => counted(reads@) > u64::MAX,
        },
{
    let mut count: BodyCount = BodyCount::new();
    let mut i: usize = 0;
    assert(reads@.skip(0) =~= reads@);
    while i < reads.len()
        invariant
            i <= reads@.len(),
            counted(reads@) == count.total + counted(reads@.skip(i as int)),
        decreases reads@.len() - i,
    {
        let ghost rest = reads@.skip(i as int);
        assert(rest.drop_first() =~= reads@.skip(i as int + 1));
        let status: ReadStatus = reads[i];
        if let ReadStatus::Complete(n) = status {
            if n as u64 > u64::MAX - count.total {
                return None;
            }
        }
        match count.on_read(status) {
            BodyStep::Read => {},
            BodyStep::Finish(total) => {
                return Some(total);
            },
        }
        i += 1;
    }
    Some(count.total)
}

/// The reads of a body that is cut into chunks.
pub open spec fn reads_of(chunks: Seq<Seq<u8>>) -> Seq<ReadStatus> {
    chunks.map_values(|c: Seq<u8>| ReadStatus::Complete(c.len() as usize)).push(ReadStatus::Dropped)
}

/// However a body is cut into chunks, the count is its length.
pub proof fn lemma_count_is_the_length(chunks: Seq<Seq<u8>>)
    requires
        forall|i: int| 0 <= i < chunks.len() ==> (#[trigger] chunks[i]).len() <= CHUNK,
    ensures
        counted(reads_of(chunks)) == chunks.flatten().len(),
    decreases chunks.len(),
{
    if chunks.len() > 0 {
        lemma_count_is_the_length(chunks.drop_first());
        assert(reads_of(chunks).drop_first() =~= reads_of(chunks.drop_first()));
        assert(chunks.drop_first() =~= chunks.subrange(1, chunks.len() as int));
    }
}

/// What is read after the end of the body does not count.
pub proof fn lemma_the_end_is_final(
    before: Seq<ReadStatus>,
    end: ReadStatus,
    after: Seq<ReadStatus>,
)
    requires
        end !is Complete,
    ensures
        counted(before.push(end) + after) == counted(before),
    decreases before.len(),
{
    let reads = before.push(end) + after;
    if before.len() > 0 {
        lemma_the_end_is_final(before.drop_first(), end, after);
        assert(reads.drop_first() =~= before.drop_first().push(end) + after);
    }
}

/// Each read that brings bytes adds them to the count and asks for the next; any other ends the body
/// with what was counted.
pub proof fn lemma_steps_add_up(count: BodyCount, status: ReadStatus)
    requires
        count.takes(status),
    ensures
        status matches ReadStatus::Complete(n) ==> count.after(status).total == count.total + n
            && count.step(status) == BodyStep::Read,
        status !is Complete ==> count.after(status).total == count.total && count.step(status)
            == BodyStep::Finish(count.total),
{
}

/// The reads before the end add up: what two stretches of reads bring is what they bring together,
/// where the first does not end the body.
pub proof fn lemma_stretches_add_up(first: Seq<ReadStatus>, second: Seq<ReadStatus>)
    requires
        forall|i: int| 0 <= i < first.len() ==> #[trigger] first[i] is Complete,
    ensures
        counted(first + second) == counted(first) + counted(second),
    decreases first.len(),
{
    if first.len() == 0 {
        assert(first + second =~= second);
    } else {
        let rest = first.drop_first();
        assert forall|i: int| 0 <= i < rest.len() implies #[trigger] rest[i] is Complete by {
            assert(rest[i] == first[i + 1]);
        }
        assert(first[0] is Complete);
        lemma_stretches_add_up(rest, second);
        assert((first + second).drop_first() =~= rest + second);
    }
}

/// A read that brings bytes counts them all.
pub proof fn lemma_one_read_counts(n: usize)
    ensures
        counted(seq![ReadStatus::Complete(n)]) == n,
        counted(seq![ReadStatus::Dropped]) == 0,
        counted(seq![ReadStatus::Cancelled]) == 0,
{
    reveal_with_fuel(counted, 2);
    assert(seq![ReadStatus::Complete(n)].drop_first() =~= Seq::<ReadStatus>::empty());
}

/// A count takes any read that leaves it within 64 bits, and any that brings nothing.
pub proof fn lemma_what_a_count_takes(count: BodyCount, n: usize)
    ensures
        count.takes(ReadStatus::Complete(n)) <==> count.total + n <= u64::MAX,
        count.takes(ReadStatus::Dropped),
        count.takes(ReadStatus::Cancelled),
{
}

} // verus!
