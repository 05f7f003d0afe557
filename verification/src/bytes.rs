//! Reading out of byte sequences.
use vstd::prelude::*;

verus! {

/// What a read of at most `n` bytes at `off` gives.
pub open spec fn read_slice(d: Seq<u8>, off: int, n: int) -> Seq<u8> {
    if off >= d.len() {
        Seq::empty()
    } else if d.len() - off <= n {
        d.skip(off)
    } else {
        d.subrange(off, off + n)
    }
}

/// Copies what a read at `off` gives into `buf`, and returns how much that is.
pub fn copy_out(d: &[u8], off: usize, buf: &mut [u8]) -> (n: usize)
    ensures
        n == read_slice(d@, off as int, old(buf)@.len() as int).len(),
        n <= old(buf)@.len(),
        n > 0 ==> off + n <= d@.len() && off + n <= usize::MAX,
        final(buf)@ == read_slice(d@, off as int, old(buf)@.len() as int) + old(buf)@.skip(
            n as int,
        ),
{
    if off >= d.len() {
        proof {
            assert(buf@ =~= Seq::<u8>::empty() + buf@.skip(0));
        }
        return 0;
    }
    let len: usize = d.len();
    let left: usize = len - off;
    let n: usize = if left <= buf.len() {
        left
    } else {
        buf.len()
    };
    let ghost all = buf@;
    let ghost out = read_slice(d@, off as int, all.len() as int);
    let mut i: usize = 0;
    proof {
        assert(out =~= d@.subrange(off as int, off + n));
        assert(buf@ =~= out.take(0) + all.skip(0));
    }
    while i < n
        invariant
            i <= n <= all.len(),
            off + n <= len,
            len == d@.len(),
            out == d@.subrange(off as int, off + n),
            buf@.len() == all.len(),
            buf@ == out.take(i as int) + all.skip(i as int),
        decreases n - i,
    {
        buf[i] = d[off + i];
        proof {
            assert(buf@ =~= out.take(i + 1) + all.skip(i + 1));
        }
        i = i + 1;
    }
    proof {
        assert(out.take(n as int) =~= out);
    }
    n
}

/// Reading gives the bytes from the place on, as many as there are and no more than asked for.
pub proof fn law_read_is_a_part(d: Seq<u8>, off: int, n: int, i: int)
    requires
        0 <= off,
        0 <= n,
    ensures
        ({
            let out = read_slice(d, off, n);
            &&& out.len() <= n
            &&& off >= d.len() ==> out.len() == 0
            &&& off < d.len() ==> off + out.len() <= d.len()
            &&& off < d.len() && n > 0 ==> out.len() > 0
            &&& off + n <= d.len() ==> out.len() == n
            &&& off <= d.len() < off + n ==> out.len() == d.len() - off
            &&& 0 <= i < out.len() ==> out[i] == d[off + i]
        }),
{
}

} // verus!
