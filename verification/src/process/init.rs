//! The stack that a program starts with.

use std::collections::BTreeMap;

use vstd::prelude::*;

verus! {

broadcast use vstd::std_specs::btree::group_btree_axioms;

/// What a program starts with: arguments, environment and auxiliary values.
pub struct ProcInit {
    pub args: Vec<String>,
    pub envs: Vec<String>,
    pub auxv: BTreeMap<u8, usize>,
}

/// The bytes of a text.
pub open spec fn bytes_in(s: String) -> nat {
    vstd::utf8::encode_utf8(s@).len()
}

/// The bytes of the first `n` texts, each with a zero behind it.
pub open spec fn text_bytes(v: Seq<String>, n: int) -> nat
    decreases n,
{
    if n <= 0 {
        0
    } else {
        text_bytes(v, n - 1) + bytes_in(v[n - 1]) + 1
    }
}

/// The address after the first `n` texts, each with a zero behind it, were put below `sp`.
/// Below address zero it goes on at the top.
pub open spec fn below(sp: usize, v: Seq<String>, n: int) -> usize
    decreases n,
{
    if n <= 0 {
        sp
    } else {
        below(sp, v, n - 1).wrapping_sub(bytes_in(v[n - 1]) as usize).wrapping_sub(1)
    }
}

/// The bytes of a word.
pub open spec fn word() -> int {
    vstd::layout::size_of::<usize>() as int
}

/// The bytes of the program's name, which is the first argument.
pub open spec fn name_len(args: Seq<String>) -> nat {
    if args.len() > 0 {
        bytes_in(args[0])
    } else {
        0
    }
}

/// The words ahead of the texts: the auxiliary pairs and the pair that ends them, the
/// pointers to the environment and to the arguments, each list with its end, and the count.
pub open spec fn words_for(args: Seq<String>, envs: Seq<String>, aux: nat) -> int {
    aux as int * 2 + 2 + envs.len() + 1 + args.len() + 1 + 1
}

/// The address below the texts: the name, the environment, and the arguments, the name
/// among them once more.
pub open spec fn below_texts(args: Seq<String>, envs: Seq<String>, top: usize) -> usize {
    let named = (top - (name_len(args) + 1)) as usize;
    below(below(named, envs, envs.len() as int), args, args.len() as int)
}

/// There is room below `top` for the name, and below the texts for the words.
pub open spec fn stack_fits(
    args: Seq<String>,
    envs: Seq<String>,
    aux: nat,
    top: usize,
) -> bool {
    &&& name_len(args) + 1 <= top
    &&& words_for(args, envs, aux) * word() <= below_texts(args, envs, top)
}

/// The stack pointer after everything was put below `top`, at a multiple of 16.
pub open spec fn stack_for(args: Seq<String>, envs: Seq<String>, aux: nat, top: usize) -> usize {
    let sp = below_texts(args, envs, top) - words_for(args, envs, aux) * word();
    (sp - sp % 16) as usize
}

impl ProcInit {
    /// The words ahead of the texts.
    pub open spec fn words(self) -> int {
        words_for(self.args@, self.envs@, self.auxv@.len())
    }

    /// There is room below `top`.
    pub open spec fn fits_below(self, top: usize) -> bool {
        stack_fits(self.args@, self.envs@, self.auxv@.len(), top)
    }

    /// The stack pointer after everything was put below `top`.
    pub open spec fn stack_at(self, top: usize) -> usize {
        stack_for(self.args@, self.envs@, self.auxv@.len(), top)
    }

    /// Lays the start of a program out below `top` and gives the stack pointer.
    pub fn push_at(&self, top: usize) -> (r: usize)
        requires
            self.fits_below(top),
        ensures
            r == self.stack_at(top),
    {
        let wd: usize = core::mem::size_of::<usize>();
        let mut sp: usize = top;
        let name: usize = if self.args.len() > 0 {
            self.args[0].as_str().as_bytes().len()
        } else {
            0
        };
        sp = sp - (name + 1);
        sp = Self::lower(sp, &self.envs);
        sp = Self::lower(sp, &self.args);
        proof {
            broadcast use vstd::layout::layout_of_primitives;
            let (a, e, g) = (
                self.auxv@.len() as int,
                self.envs@.len() as int,
                self.args@.len() as int,
            );
            let w = wd as int;
            assert((a * 2 + 2 + e + 1 + g + 1 + 1) * w == (a * 2 + 2) * w + (e + 1) * w + (g + 1)
                * w + w) by (nonlinear_arith);
            assert((a * 2 + 2) * w >= a * 2 + 2 && (e + 1) * w >= e + 1 && (g + 1) * w >= g + 1)
                by (nonlinear_arith)
                requires
                    w >= 1,
                    a >= 0,
                    e >= 0,
                    g >= 0,
            ;
        }
        let aux: usize = (self.auxv.len() * 2 + 2) * wd;
        sp = sp - aux;
        sp = sp - (self.envs.len() + 1) * wd;
        sp = sp - (self.args.len() + 1) * wd;
        sp = sp - wd;
        sp - sp % 16
    }

    fn lower(sp: usize, v: &Vec<String>) -> (r: usize)
        ensures
            r == below(sp, v@, v@.len() as int),
    {
        let mut sp: usize = sp;
        let ghost start = sp;
        let mut i: usize = 0;
        while i < v.len()
            invariant
                i <= v@.len(),
                sp == below(start, v@, i as int),
            decreases v@.len() - i,
        {
            let n: usize = v[i].as_str().as_bytes().len();
            sp = sp.wrapping_sub(n).wrapping_sub(1);
            i += 1;
        }
        sp
    }

    /// The bytes that the start of a program takes: the texts and the words.
    pub open spec fn size_needed(self) -> int {
        text_bytes(self.args@, self.args@.len() as int) + text_bytes(
            self.envs@,
            self.envs@.len() as int,
        ) + self.words() * word()
    }

    /// How many bytes the start of a program takes.
    pub fn total_size(&self) -> (r: usize)
        requires
            self.size_needed() <= usize::MAX,
        ensures
            r == self.size_needed(),
    {
        let wd: usize = core::mem::size_of::<usize>();
        proof {
            broadcast use vstd::layout::layout_of_primitives;
            let (n, w) = (self.words(), wd as int);
            assert(n * w >= n) by (nonlinear_arith)
                requires
                    w >= 1,
                    n >= 0,
            ;
        }
        let words: usize = self.auxv.len() * 2 + 2 + self.args.len() + 1 + self.envs.len() + 1
            + 1;
        let args: usize = Self::count(&self.args);
        let envs: usize = Self::count(&self.envs);
        args + envs + words * wd
    }

    fn count(v: &Vec<String>) -> (r: usize)
        requires
            text_bytes(v@, v@.len() as int) <= usize::MAX,
        ensures
            r == text_bytes(v@, v@.len() as int),
    {
        let mut sz: usize = 0;
        let mut i: usize = 0;
        while i < v.len()
            invariant
                i <= v@.len(),
                sz == text_bytes(v@, i as int),
                text_bytes(v@, v@.len() as int) <= usize::MAX,
            decreases v@.len() - i,
        {
            proof {
                lemma_text_bytes_grow(v@, i + 1, v@.len() as int);
            }
            sz = sz + v[i].as_str().as_bytes().len() + 1;
            i += 1;
        }
        sz
    }
}

proof fn lemma_text_bytes_grow(v: Seq<String>, m: int, n: int)
    requires
        0 <= m <= n,
    ensures
        text_bytes(v, m) <= text_bytes(v, n),
    decreases n - m,
{
    if m < n {
        lemma_text_bytes_grow(v, m, n - 1);
    }
}

/// The stack pointer is a multiple of 16, and not above where the words begin.
pub proof fn law_stack_is_aligned(p: ProcInit, top: usize)
    requires
        p.fits_below(top),
    ensures
        p.stack_at(top) % 16 == 0,
        p.stack_at(top) + p.words() * word() <= below_texts(p.args@, p.envs@, top),
{
}

/// The start of a program takes a byte behind each text, a word for each argument and variable
/// and for the end of each list, two for each auxiliary value and for their end, and one for
/// the count.
pub proof fn law_words_are_counted(args: Seq<String>, envs: Seq<String>, aux: nat, x: String)
    ensures
        words_for(args.push(x), envs, aux) == words_for(args, envs, aux) + 1,
        words_for(args, envs.push(x), aux) == words_for(args, envs, aux) + 1,
        words_for(args, envs, aux + 1) == words_for(args, envs, aux) + 2,
        words_for(Seq::<String>::empty(), Seq::<String>::empty(), 0) == 5,
        text_bytes(args.push(x), args.len() as int + 1) == text_bytes(args, args.len() as int)
            + vstd::utf8::encode_utf8(x@).len() + 1,
{
    lemma_text_bytes_same(args, args.push(x), args.len() as int);
}

proof fn lemma_text_bytes_same(v: Seq<String>, w: Seq<String>, n: int)
    requires
        0 <= n <= v.len(),
        n <= w.len(),
        forall|i: int| 0 <= i < n ==> v[i] == w[i],
    ensures
        text_bytes(v, n) == text_bytes(w, n),
    decreases n,
{
    if n > 0 {
        lemma_text_bytes_same(v, w, n - 1);
    }
}

proof fn lemma_below(sp: usize, v: Seq<String>, n: int)
    requires
        0 <= n <= v.len(),
        text_bytes(v, n) <= sp,
    ensures
        below(sp, v, n) == sp - text_bytes(v, n),
    decreases n,
{
    if n > 0 {
        lemma_below(sp, v, n - 1);
    }
}

/// Everything that a program starts with lies between the stack pointer and the top, with less
/// than sixteen bytes to spare: the name, the environment, the arguments and the words.
pub proof fn law_stack_holds_everything(args: Seq<String>, envs: Seq<String>, aux: nat, top: usize)
    requires
        stack_fits(args, envs, aux, top),
        name_len(args) + 1 + text_bytes(envs, envs.len() as int) + text_bytes(
            args,
            args.len() as int,
        ) <= top,
    ensures
        ({
            let used = name_len(args) + 1 + text_bytes(envs, envs.len() as int) + text_bytes(
                args,
                args.len() as int,
            ) + words_for(args, envs, aux) * word();
            used <= top - stack_for(args, envs, aux, top) < used + 16
        }),
        args.len() > 0 ==> name_len(args) == vstd::utf8::encode_utf8(args[0]@).len(),
        args.len() == 0 ==> name_len(args) == 0,
        stack_for(args, envs, aux, top) % 16 == 0,
{
    let named = (top - (name_len(args) + 1)) as usize;
    lemma_below(named, envs, envs.len() as int);
    lemma_below(
        below(named, envs, envs.len() as int),
        args,
        args.len() as int,
    );
}

} // verus!
