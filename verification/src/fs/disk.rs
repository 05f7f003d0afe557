//! A disk that can be made to fail, with an optional journal disk.
use vstd::prelude::*;

verus! {

/// A disk. It fails its next `errs` reads and writes, or all of them if `errs` is the
/// largest number; `ops` counts what was tried. While it fails a read, its journal is
/// read.
pub struct Disk {
    pub errs: usize,
    pub ops: usize,
    pub label: String,
    pub journal: Option<Box<Disk>>,
}

/// The byte that a read gives at every place.
pub const PATTERN: u8 = 0xAA;

/// The most tries of a journal read.
pub const JOURNAL_TRIES: usize = 5;

impl Disk {
    /// How many journals there are, one behind the other.
    pub open spec fn height(self) -> nat
        decreases self,
    {
        match self.journal {
            Some(j) => 1 + j.height(),
            None => 0,
        }
    }

    /// The disk fails for good.
    pub open spec fn broken(self) -> bool {
        self.errs == usize::MAX
    }

    /// How many tries fail of a read that is given up after `lim` tries, or never if
    /// `lim` is 0.
    pub open spec fn failures(self, lim: usize) -> int {
        if self.broken() || (lim > 0 && self.errs >= lim) {
            lim as int
        } else {
            self.errs as int
        }
    }

    /// A read with `lim` tries succeeds.
    pub open spec fn succeeds(self, lim: usize) -> bool {
        !self.broken() && (lim == 0 || self.errs < lim)
    }

    /// The read comes to an end: where it is never given up, no disk that it reaches
    /// fails for good.
    pub open spec fn read_ends(self, lim: usize) -> bool
        decreases self,
    {
        lim == 0 ==> !self.broken() && (self.errs > 0 ==> match self.journal {
            Some(j) => j.read_ends(0),
            None => true,
        })
    }

    /// The disk after a read with `lim` tries, followed through `h` journals.
    pub open spec fn after_read(self, lim: usize, h: nat) -> Disk
        decreases h, 0int,
    {
        let f = self.failures(lim);
        let n = if self.succeeds(lim) {
            f + 1
        } else {
            f
        };
        Disk {
            errs: if self.broken() {
                self.errs
            } else {
                (self.errs - f) as usize
            },
            ops: count_up(self.ops, n as nat),
            label: self.label,
            journal: match self.journal {
                Some(j) => if h > 0 {
                    Some(Box::new(j.after_reads(journal_lim(lim), f as nat, (h - 1) as nat)))
                } else {
                    Some(j)
                },
                None => None,
            },
        }
    }

    /// The disk after `k` reads with `lim` tries each.
    pub open spec fn after_reads(self, lim: usize, k: nat, h: nat) -> Disk
        decreases h, k + 1,
    {
        if k == 0 {
            self
        } else {
            self.after_reads(lim, (k - 1) as nat, h).after_read(lim, h)
        }
    }
}

/// How many journals there are from this one on.
pub open spec fn journal_height(journal: Option<Box<Disk>>) -> nat {
    match journal {
        Some(j) => j.height(),
        None => 0,
    }
}

/// The count after `n` more, which starts over behind the largest number.
pub open spec fn count_up(ops: usize, n: nat) -> usize
    decreases n,
{
    if n == 0 {
        ops
    } else {
        count_up(ops, (n - 1) as nat).wrapping_add(1)
    }
}

/// The tries of a journal read that a read with `lim` tries makes.
pub open spec fn journal_lim(lim: usize) -> usize {
    if lim < JOURNAL_TRIES {
        lim
    } else {
        JOURNAL_TRIES
    }
}

/// Reading changes no disk's journals but for their state.
proof fn lemma_read_height(d: Disk, lim: usize, h: nat)
    ensures
        d.after_read(lim, h).height() == d.height(),
    decreases h, 0int,
{
    if let Some(j) = d.journal {
        if h > 0 {
            lemma_reads_height(
                *j,
                journal_lim(lim),
                d.failures(lim) as nat,
                (h - 1) as nat,
            );
        }
    }
}

/// Reading changes no disk's journals but for their state.
proof fn lemma_reads_height(d: Disk, lim: usize, k: nat, h: nat)
    ensures
        d.after_reads(lim, k, h).height() == d.height(),
    decreases h, k + 1,
{
    if k > 0 {
        lemma_reads_height(d, lim, (k - 1) as nat, h);
        lemma_read_height(d.after_reads(lim, (k - 1) as nat, h), lim, h);
    }
}

/// A read that comes to an end once does so again.
proof fn lemma_reads_end(d: Disk, lim: usize, k: nat, h: nat)
    requires
        d.read_ends(lim),
    ensures
        d.after_reads(lim, k, h).read_ends(lim),
    decreases k,
{
    if k > 0 {
        lemma_reads_end(d, lim, (k - 1) as nat, h);
        let e = d.after_reads(lim, (k - 1) as nat, h);
        let post = e.after_read(lim, h);
        assert(d.after_reads(lim, k, h) == post);
        if lim == 0 {
            assert(!e.broken());
            assert(post.errs == 0);
        }
    }
}

impl Disk {
    /// A disk that does not fail.
    pub fn new(s: &str) -> (r: Self)
        ensures
            r.errs == 0,
            r.ops == 0,
            r.label@ == s@,
            r.journal is None,
    {
        Disk { errs: 0, ops: 0, label: s.to_owned(), journal: None }
    }

    /// A disk that fails its first `n` reads and writes.
    pub fn failing(s: &str, n: usize) -> (r: Self)
        ensures
            r.errs == n,
            r.ops == 0,
            r.label@ == s@,
            r.journal is None,
    {
        Disk { errs: n, ops: 0, label: s.to_owned(), journal: None }
    }

    /// Gives the disk a journal.
    pub fn attach_journal(&mut self, d: Disk)
        ensures
            *final(self) == (Disk { journal: Some(Box::new(d)), ..*old(self) }),
    {
        self.journal = Some(Box::new(d));
    }

    /// Sets how many reads and writes fail.
    pub fn set_errs(&mut self, n: usize)
        ensures
            *final(self) == (Disk { errs: n, ..*old(self) }),
    {
        self.errs = n;
    }

    /// How many tries of a read without a limit fail: all that the disk was told to fail, or
    /// the one after which it is seen to fail for good.
    pub open spec fn bad_tries(self) -> nat {
        if self.broken() {
            1
        } else {
            self.errs as nat
        }
    }

    /// Reads a block, trying until it succeeds; every byte of it is the pattern. A disk that
    /// fails for good is tried once, and gives nothing.
    pub fn read_block(&mut self, blk: usize, out: &mut [u8]) -> (r: Result<(), &'static str>)
        ensures
            r == (if old(self).broken() {
                Err::<(), &'static str>("io_error")
            } else {
                Ok(())
            }),
            final(out)@ == (if old(self).broken() {
                old(out)@
            } else {
                Seq::new(old(out)@.len(), |i: int| PATTERN)
            }),
            final(self).errs == (if old(self).broken() {
                old(self).errs
            } else {
                0
            }),
            final(self).ops == count_up(
                old(self).ops,
                old(self).bad_tries() + (if old(self).broken() {
                    0nat
                } else {
                    1
                }),
            ),
            final(self).label == old(self).label,
            match old(self).journal {
                Some(j) => final(self).journal == Some(
                    Box::new(j.after_reads(JOURNAL_TRIES, old(self).bad_tries(), j.height())),
                ),
                None => final(self).journal is None,
            },
    {
        if self.errs == usize::MAX {
            self.ops = self.ops.wrapping_add(1);
            self.read_journal(blk, JOURNAL_TRIES);
            proof {
                reveal_with_fuel(count_up, 2);
                if let Some(j) = old(self).journal {
                    reveal_with_fuel(Disk::after_reads, 2);
                    assert(j.after_reads(JOURNAL_TRIES, 0, j.height()) == *j);
                }
            }
            return Err("io_error");
        }
        let mut tried: usize = 0;
        while self.errs != 0
            invariant
                tried <= old(self).errs,
                !old(self).broken(),
                self.errs == old(self).errs - tried,
                self.ops == count_up(old(self).ops, tried as nat),
                self.label == old(self).label,
                match old(self).journal {
                    Some(j) => self.journal == Some(
                        Box::new(j.after_reads(JOURNAL_TRIES, tried as nat, j.height())),
                    ),
                    None => self.journal is None,
                },
            decreases self.errs,
        {
            self.ops = self.ops.wrapping_add(1);
            self.errs = self.errs - 1;
            proof {
                if let Some(j) = old(self).journal {
                    lemma_reads_height(*j, JOURNAL_TRIES, tried as nat, j.height());
                }
            }
            self.read_journal(blk, JOURNAL_TRIES);
            tried = tried + 1;
        }
        self.ops = self.ops.wrapping_add(1);
        let mut i: usize = 0;
        let n: usize = out.len();
        while i < n
            invariant
                i <= n,
                n == out@.len(),
                n == old(out)@.len(),
                forall|j: int| 0 <= j < i ==> out@[j] == PATTERN,
            decreases n - i,
        {
            out[i] = PATTERN;
            i = i + 1;
        }
        proof {
            assert(out@ =~= Seq::new(old(out)@.len(), |i: int| PATTERN));
        }
        Ok(())
    }

    /// Reads the journal, if there is one, and forgets what comes of it.
    fn read_journal(&mut self, blk: usize, lim: usize)
        requires
            match old(self).journal {
                Some(j) => j.read_ends(lim),
                None => true,
            },
        ensures
            final(self).errs == old(self).errs,
            final(self).ops == old(self).ops,
            final(self).label == old(self).label,
            match old(self).journal {
                Some(j) => final(self).journal == Some(
                    Box::new(j.after_read(lim, j.height())),
                ),
                None => final(self).journal is None,
            },
        decreases old(self).height(), 0int,
    {
        if let Some(j) = &mut self.journal {
            let mut scratch: Vec<u8> = vec![0u8;8];
            let _ = j.read_block_n(blk, scratch.as_mut_slice(), lim);
        }
    }

    /// Reads a block with at most `lim` tries, or as many as it takes if `lim` is 0;
    /// returns how many it took. Each byte is the pattern mixed with its place.
    pub fn read_block_n(&mut self, blk: usize, out: &mut [u8], lim: usize) -> (r: Result<
        usize,
        &'static str,
    >)
        requires
            old(self).read_ends(lim),
        ensures
            *final(self) == old(self).after_read(lim, old(self).height()),
            r == (if old(self).succeeds(lim) {
                Ok::<usize, &'static str>((old(self).errs + 1) as usize)
            } else {
                Err("limit")
            }),
            final(out)@ == (if old(self).succeeds(lim) {
                Seq::new(old(out)@.len(), |i: int| PATTERN ^ ((i as usize) as u8))
            } else {
                old(out)@
            }),
        decreases old(self).height(), 1int,
    {
        let mut tried: usize = 0;
        let jl: usize = if lim < JOURNAL_TRIES {
            lim
        } else {
            JOURNAL_TRIES
        };
        let ghost h: nat = journal_height(old(self).journal);
        while self.errs != 0
            invariant
                old(self).read_ends(lim),
                jl == journal_lim(lim),
                h == journal_height(old(self).journal),
                tried <= old(self).failures(lim),
                lim > 0 ==> tried < lim,
                self.errs == (if old(self).broken() {
                    old(self).errs
                } else {
                    (old(self).errs - tried) as usize
                }),
                self.ops == count_up(old(self).ops, tried as nat),
                self.label == old(self).label,
                match old(self).journal {
                    Some(j) => self.journal == Some(
                        Box::new(j.after_reads(jl, tried as nat, h)),
                    ),
                    None => self.journal is None,
                },
            decreases old(self).failures(lim) - tried,
        {
            self.ops = self.ops.wrapping_add(1);
            if self.errs != usize::MAX {
                self.errs = self.errs - 1;
            }
            proof {
                if let Some(j) = old(self).journal {
                    lemma_reads_height(*j, jl, tried as nat, h);
                    lemma_reads_end(*j, jl, tried as nat, h);
                }
            }
            self.read_journal(blk, jl);
            tried = tried + 1;
            if lim > 0 && tried >= lim {
                return Err("limit");
            }
        }
        self.ops = self.ops.wrapping_add(1);
        let mut i: usize = 0;
        let n: usize = out.len();
        while i < n
            invariant
                i <= n,
                n == out@.len(),
                n == old(out)@.len(),
                forall|j: int| 0 <= j < i ==> out@[j] == PATTERN ^ ((j as usize) as u8),
            decreases n - i,
        {
            out[i] = PATTERN ^ (i as u8);
            i = i + 1;
        }
        proof {
            assert(out@ =~= Seq::new(old(out)@.len(), |i: int| PATTERN ^ ((i as usize) as u8)));
        }
        Ok(tried + 1)
    }

    /// How many operations were tried.
    pub fn total_ops(&self) -> (r: usize)
        ensures
            r == self.ops,
    {
        self.ops
    }

    /// Counts operations from 0 again.
    pub fn reset_ops(&mut self)
        ensures
            *final(self) == (Disk { ops: 0, ..*old(self) }),
    {
        self.ops = 0;
    }

    /// Writes a block, or fails.
    pub fn write_block(&mut self, _blk: usize, _data: &[u8]) -> (r: Result<(), &'static str>)
        ensures
            r == (if old(self).errs == 0 {
                Ok::<(), &'static str>(())
            } else {
                Err("io_error")
            }),
            *final(self) == (Disk {
                ops: old(self).ops.wrapping_add(1),
                errs: if old(self).errs == 0 || old(self).broken() {
                    old(self).errs
                } else {
                    (old(self).errs - 1) as usize
                },
                ..*old(self)
            }),
    {
        self.ops = self.ops.wrapping_add(1);
        if self.errs != 0 {
            if self.errs != usize::MAX {
                self.errs = self.errs - 1;
            }
            return Err("io_error");
        }
        Ok(())
    }

    /// Flushes the disk and its journal.
    pub fn flush(&mut self) -> (r: Result<(), &'static str>)
        ensures
            r is Ok,
            final(self).ops == old(self).ops.wrapping_add(1),
            final(self).errs == old(self).errs,
            final(self).label == old(self).label,
            match old(self).journal {
                Some(j) => final(self).journal == Some(
                    Box::new(Disk { ops: j.ops.wrapping_add(1), ..*j }),
                ),
                None => final(self).journal is None,
            },
    {
        self.ops = self.ops.wrapping_add(1);
        if let Some(j) = &mut self.journal {
            j.ops = j.ops.wrapping_add(1);
        }
        Ok(())
    }
}

/// A read with tries enough fails exactly as often as the disk was told to fail, and then
/// succeeds.
pub proof fn law_read_outlasts_failures(d: Disk, lim: usize)
    requires
        !d.broken(),
        lim > d.errs,
    ensures
        d.succeeds(lim),
        d.after_read(lim, d.height()).errs == 0,
        d.after_read(lim, d.height()).ops == count_up(d.ops, (d.errs + 1) as nat),
{
}

/// Counting up adds, as long as the count fits.
pub proof fn law_count_up_adds(ops: usize, n: nat)
    requires
        ops + n <= usize::MAX,
    ensures
        count_up(ops, n) == ops + n,
    decreases n,
{
    if n > 0 {
        law_count_up_adds(ops, (n - 1) as nat);
    }
}

/// A read with a limit takes one operation a try: as many as the disk was told to fail and
/// one that succeeds, or the limit. Each failure uses up one that the disk was told to have.
pub proof fn law_read_takes_one_operation_a_try(d: Disk, lim: usize)
    requires
        lim > 0,
        d.ops + lim <= usize::MAX,
    ensures
        d.errs < lim ==> d.after_read(lim, d.height()).ops == d.ops + d.errs + 1
            && d.after_read(lim, d.height()).errs == 0,
        d.errs >= lim ==> d.after_read(lim, d.height()).ops == d.ops + lim,
        d.errs >= lim && d.errs < usize::MAX ==> d.after_read(lim, d.height()).errs == d.errs - lim,
        d.errs == usize::MAX ==> d.after_read(lim, d.height()).errs == usize::MAX,
        d.succeeds(lim) <==> d.errs < lim,
        d.after_read(lim, d.height()).label == d.label,
        d.after_read(lim, d.height()).journal is None <==> d.journal is None,
{
    if d.errs < lim {
        law_count_up_adds(d.ops, (d.errs + 1) as nat);
    } else {
        law_count_up_adds(d.ops, lim as nat);
    }
}

/// A disk that always fails never reads; any other does in the end, without a limit.
pub proof fn law_broken_disk_never_reads(d: Disk, lim: usize)
    ensures
        d.errs == usize::MAX ==> !d.succeeds(lim) && d.bad_tries() == 1,
        d.errs < usize::MAX ==> d.succeeds(0) && d.bad_tries() == d.errs,
{
}

/// A journal is read once for each failure, and tried at most five times in a read, or as
/// often as the disk itself where that is fewer.
pub proof fn law_journal_is_read_for_each_failure(d: Disk, j: Disk, lim: usize)
    requires
        d.journal == Some(Box::new(j)),
        j.errs == 0,
        j.journal is None,
        d.errs < lim,
        j.ops + d.errs <= usize::MAX,
    ensures
        d.after_read(lim, d.height()).journal is Some,
        d.after_read(lim, d.height()).journal->0.ops == j.ops + d.errs,
        d.after_read(lim, d.height()).journal->0.errs == 0,
        journal_lim(lim) <= 5,
        journal_lim(lim) <= lim,
        journal_lim(lim) == 5 || journal_lim(lim) == lim,
{
    lemma_sound_reads(j, journal_lim(lim), d.errs as nat, 0);
    assert(j.height() == 0);
    assert(d.height() == 1);
}

/// A sound disk without a journal takes one operation a read.
proof fn lemma_sound_reads(j: Disk, lim: usize, k: nat, h: nat)
    requires
        j.errs == 0,
        j.journal is None,
        j.ops + k <= usize::MAX,
    ensures
        j.after_reads(lim, k, h) == (Disk { ops: (j.ops + k) as usize, ..j }),
    decreases k,
{
    if k > 0 {
        lemma_sound_reads(j, lim, (k - 1) as nat, h);
        let e = j.after_reads(lim, (k - 1) as nat, h);
        law_count_up_adds(e.ops, 1);
        reveal_with_fuel(Disk::after_reads, 2);
        assert(e.after_read(lim, h).ops == count_up(e.ops, 1));
    }
}

} // verus!
