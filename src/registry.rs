//! Admission control: the open connections, bounded by the file-descriptor
//! budget, with oldest-first eviction.
use vstd::prelude::*;

verus! {

/// One open connection: its identifier, when it was accepted (milliseconds
/// since the epoch), and the handle that cancels it.
pub struct SockCacheEntry<T> {
    pub id: u64,
    pub created_at: u128,
    pub channel_sender: T,
}

/// The index of the oldest entry: the smallest creation time, and among equal
/// ones the first inserted.
pub open spec fn oldest_index<T>(s: Seq<SockCacheEntry<T>>) -> int
    decreases s.len(),
{
    if s.len() <= 1 {
        0
    } else {
        let k = oldest_index(s.drop_last());
        if s.last().created_at < s[k].created_at {
            s.len() - 1
        } else {
            k
        }
    }
}

/// The first index whose entry has identifier `id`, or the length where none has.
pub open spec fn index_of_id<T>(s: Seq<SockCacheEntry<T>>, id: u64) -> int
    decreases s.len(),
{
    if s.len() == 0 {
        0
    } else if s[0].id == id {
        0
    } else {
        1 + index_of_id(s.subrange(1, s.len() as int), id)
    }
}

/// The entries after one registration under `ceiling`: at the ceiling the
/// oldest leaves first; the new entry goes last.
pub open spec fn register_step<T>(
    s: Seq<SockCacheEntry<T>>,
    ceiling: nat,
    e: SockCacheEntry<T>,
) -> Seq<SockCacheEntry<T>> {
    if s.len() >= ceiling && s.len() > 0 {
        s.remove(oldest_index(s)).push(e)
    } else {
        s.push(e)
    }
}

/// The entries after registering each of `es` in turn.
pub open spec fn register_all<T>(
    s: Seq<SockCacheEntry<T>>,
    ceiling: nat,
    es: Seq<SockCacheEntry<T>>,
) -> Seq<SockCacheEntry<T>>
    decreases es.len(),
{
    if es.len() == 0 {
        s
    } else {
        register_step(register_all(s, ceiling, es.drop_last()), ceiling, es.last())
    }
}

/// The oldest index is in range, no entry is older, and every entry before it
/// is strictly younger.
pub proof fn lemma_oldest_index<T>(s: Seq<SockCacheEntry<T>>)
    requires
        s.len() >= 1,
    ensures
        0 <= oldest_index(s) < s.len(),
        forall|j: int| 0 <= j < s.len() ==> s[oldest_index(s)].created_at <= #[trigger] s[j].created_at,
        forall|j: int| 0 <= j < oldest_index(s) ==> s[oldest_index(s)].created_at < #[trigger] s[j].created_at,
    decreases s.len(),
{
    if s.len() > 1 {
        let t = s.drop_last();
        lemma_oldest_index(t);
        let k = oldest_index(t);
        let m = oldest_index(s);
        assert(t[k] == s[k]);
        assert forall|j: int| 0 <= j < s.len() implies s[m].created_at <= #[trigger] s[j].created_at by {
            if j < s.len() - 1 {
                assert(t[j] == s[j]);
            }
        }
        assert forall|j: int| 0 <= j < m implies s[m].created_at < #[trigger] s[j].created_at by {
            assert(t[j] == s[j]);
        }
    }
}

/// At the ceiling, with creation times strictly increasing, the next
/// registration evicts the first (oldest) connection.
pub proof fn lemma_evicts_first<T>(s: Seq<SockCacheEntry<T>>, ceiling: nat, e: SockCacheEntry<T>)
    requires
        ceiling >= 1,
        s.len() == ceiling,
        forall|i: int, j: int| 0 <= i < j < s.len() ==> s[i].created_at < s[j].created_at,
    ensures
        oldest_index(s) == 0,
        register_step(s, ceiling, e) == s.subrange(1, s.len() as int).push(e),
{
    lemma_oldest_index(s);
    if oldest_index(s) > 0 {
        assert(s[0].created_at < s[oldest_index(s)].created_at);
    }
    assert(s.remove(0) =~= s.subrange(1, s.len() as int));
}

/// Whatever accepts follow, the number of open connections stays within the
/// ceiling.
pub proof fn lemma_ceiling_holds<T>(
    s: Seq<SockCacheEntry<T>>,
    ceiling: nat,
    es: Seq<SockCacheEntry<T>>,
)
    requires
        ceiling >= 1,
        s.len() <= ceiling,
    ensures
        register_all(s, ceiling, es).len() <= ceiling,
    decreases es.len(),
{
    if es.len() > 0 {
        lemma_ceiling_holds(s, ceiling, es.drop_last());
        let t = register_all(s, ceiling, es.drop_last());
        if t.len() >= ceiling && t.len() > 0 {
            lemma_oldest_index(t);
        }
    }
}

/// The open connections, at most `max_files - 1` of them.
pub struct SockCache<T> {
    entries: Vec<SockCacheEntry<T>>,
    max_files: u64,
}

impl<T> SockCache<T> {
    pub closed spec fn entries(&self) -> Seq<SockCacheEntry<T>> {
        self.entries@
    }

    pub closed spec fn max_files(&self) -> nat {
        self.max_files as nat
    }

    /// The most connections that may be open at once.
    pub open spec fn ceiling(&self) -> nat {
        (self.max_files() - 1) as nat
    }

    pub open spec fn wf(&self) -> bool {
        &&& self.max_files() >= 2
        &&& self.entries().len() <= self.ceiling()
    }

    /// An empty registry for a process that may hold `max_files` open files.
    pub fn new(max_files: u64) -> (r: SockCache<T>)
        requires
            max_files >= 2,
        ensures
            r.wf(),
            r.entries() == Seq::<SockCacheEntry<T>>::empty(),
            r.max_files() == max_files,
    {
        SockCache { entries: Vec::new(), max_files }
    }

    /// The number of open connections.
    pub fn len(&self) -> (r: usize)
        ensures
            r == self.entries().len(),
    {
        self.entries.len()
    }

    /// The most connections that may be open at once.
    pub fn ceiling_exec(&self) -> (r: u64)
        requires
            self.wf(),
        ensures
            r == self.ceiling(),
    {
        self.max_files - 1
    }

    fn oldest(&self) -> (r: usize)
        requires
            self.entries().len() >= 1,
        ensures
            r == oldest_index(self.entries()),
    {
        let mut best: usize = 0;
        let mut i: usize = 1;
        let ghost s = self.entries@;
        assert(s.subrange(0, 1).len() == 1);
        while i < self.entries.len()
            invariant
                s == self.entries@,
                1 <= i <= s.len(),
                best == oldest_index(s.subrange(0, i as int)),
                best < i,
            decreases s.len() - i,
        {
            let ghost t = s.subrange(0, i + 1);
            proof {
                assert(t.drop_last() =~= s.subrange(0, i as int));
                assert(t[best as int] == s[best as int]);
                lemma_oldest_index(s.subrange(0, i as int));
            }
            if self.entries[i].created_at < self.entries[best].created_at {
                best = i;
            }
            i = i + 1;
        }
        assert(s.subrange(0, s.len() as int) =~= s);
        best
    }

    /// Registers `entry`. At the ceiling the oldest connection leaves first
    /// and is handed back, so that the caller can cancel it.
    pub fn register(&mut self, entry: SockCacheEntry<T>) -> (r: Option<SockCacheEntry<T>>)
        requires
            old(self).wf(),
        ensures
            final(self).wf(),
            final(self).max_files() == old(self).max_files(),
            final(self).entries() == register_step(old(self).entries(), old(self).ceiling(), entry),
            old(self).entries().len() >= old(self).ceiling() ==> r == Some(
                old(self).entries()[oldest_index(old(self).entries())],
            ),
            old(self).entries().len() < old(self).ceiling() ==> r is None,
    {
        let ghost s = self.entries@;
        let mut evicted: Option<SockCacheEntry<T>> = None;
        if self.entries.len() as u64 >= self.max_files - 1 {
            let k = self.oldest();
            proof {
                lemma_oldest_index(s);
            }
            evicted = Some(self.entries.remove(k));
        }
        self.entries.push(entry);
        evicted
    }

    /// Removes the connection with identifier `id`, where it is still there.
    pub fn unregister(&mut self, id: u64) -> (r: bool)
        requires
            old(self).wf(),
        ensures
            final(self).wf(),
            final(self).max_files() == old(self).max_files(),
            r == (index_of_id(old(self).entries(), id) < old(self).entries().len()),
            r ==> final(self).entries() == old(self).entries().remove(
                index_of_id(old(self).entries(), id),
            ),
            !r ==> final(self).entries() == old(self).entries(),
    {
        let ghost s = self.entries@;
        let mut i: usize = 0;
        while i < self.entries.len()
            invariant
                s == self.entries@,
                s == old(self).entries(),
                self.max_files == old(self).max_files,
                self.wf(),
                0 <= i <= s.len(),
                forall|j: int| 0 <= j < i ==> s[j].id != id,
            decreases s.len() - i,
        {
            if self.entries[i].id == id {
                proof {
                    lemma_index_of_id(s, id, i as int);
                }
                self.entries.remove(i);
                return true;
            }
            i = i + 1;
        }
        proof {
            lemma_index_of_id(s, id, i as int);
        }
        false
    }
}

proof fn lemma_index_of_id<T>(s: Seq<SockCacheEntry<T>>, id: u64, i: int)
    requires
        0 <= i <= s.len(),
        i < s.len() ==> s[i].id == id,
        forall|j: int| 0 <= j < i ==> s[j].id != id,
    ensures
        index_of_id(s, id) == i,
    decreases s.len(),
{
    if s.len() > 0 && i > 0 {
        let t = s.subrange(1, s.len() as int);
        assert forall|j: int| 0 <= j < i - 1 implies t[j].id != id by {
            assert(t[j] == s[j + 1]);
        }
        lemma_index_of_id(t, id, i - 1);
    }
}

} // verus!
