//! Terminal settings, and files whose bytes are made up.
use crate::bytes::copy_out;
use vstd::prelude::*;

verus! {

/// A read-only file with fixed bytes.
pub struct PseudoNode {
    pub content: Vec<u8>,
    pub ftype: u8,
}

impl PseudoNode {
    /// A file with the bytes of the text.
    pub fn new(s: &str, ft: u8) -> (r: Self)
        ensures
            r.content@ == vstd::utf8::encode_utf8(s@),
            r.ftype == ft,
    {
        PseudoNode { content: read_as_vec(s.as_bytes()), ftype: ft }
    }

    /// Reads at `off` and returns how much.
    pub fn read_at(&self, off: usize, buf: &mut [u8]) -> (n: usize)
        ensures
            ({
                let out = crate::bytes::read_slice(
                    self.content@,
                    off as int,
                    old(buf)@.len() as int,
                );
                n == out.len() && final(buf)@ == out + old(buf)@.skip(n as int)
            }),
    {
        copy_out(self.content.as_slice(), off, buf)
    }

    /// Nothing can be written.
    pub fn write_at(&self, _off: usize, _buf: &[u8]) -> (r: Result<usize, &'static str>)
        ensures
            r == Err::<usize, &'static str>("nosup"),
    {
        Err("nosup")
    }

    /// The number of bytes.
    pub fn metadata_sz(&self) -> (r: usize)
        ensures
            r == self.content@.len(),
    {
        self.content.len()
    }
}

/// The bytes as a vector.
pub fn read_as_vec(data: &[u8]) -> (r: Vec<u8>)
    ensures
        r@ == data@,
{
    let mut v: Vec<u8> = Vec::new();
    v.extend_from_slice(data);
    proof {
        assert(v@ =~= data@);
    }
    v
}

/// The settings of a terminal.
#[derive(Clone, Copy)]
pub struct TrmIO {
    pub iflag: u32,
    pub oflag: u32,
    pub cflag: u32,
    pub lflag: u32,
    pub line: u8,
    pub cc: [u8; 32],
    pub ispeed: u32,
    pub ospeed: u32,
}

/// The control characters that a terminal starts with.
pub open spec fn default_cc() -> Seq<u8> {
    seq![
        3u8, 28u8, 127u8, 21u8, 4u8, 0u8, 1u8, 0u8, 17u8, 19u8, 26u8, 255u8, 18u8, 15u8, 23u8,
        22u8, 255u8, 0u8, 0u8, 0u8, 0u8, 0u8, 0u8, 0u8, 0u8, 0u8, 0u8, 0u8, 0u8, 0u8, 0u8, 0u8,
    ]
}

impl Default for TrmIO {
    /// Line input with echo and signals.
    fn default() -> (r: Self)
        ensures
            r.iflag == 0x6d02,
            r.oflag == 0x5,
            r.cflag == 0x4bf,
            r.lflag == 0x8a3b,
            r.line == 0,
            r.cc@ == default_cc(),
            r.ispeed == 0,
            r.ospeed == 0,
    {
        let cc: [u8; 32] = [
            3, 28, 127, 21, 4, 0, 1, 0, 17, 19, 26, 255, 18, 15, 23, 22, 255, 0, 0, 0, 0, 0, 0, 0,
            0, 0, 0, 0, 0, 0, 0, 0,
        ];
        proof {
            assert(cc@ =~= default_cc());
        }
        TrmIO {
            iflag: 0x6d02,
            oflag: 0x5,
            cflag: 0x4bf,
            lflag: 0x8a3b,
            line: 0,
            cc,
            ispeed: 0,
            ospeed: 0,
        }
    }
}

/// The size of a terminal window in characters and in dots.
#[derive(Clone, Copy, PartialEq, Eq, Structural, Debug)]
pub struct WinSz {
    pub row: u16,
    pub col: u16,
    pub xpx: u16,
    pub ypx: u16,
}

impl Default for WinSz {
    fn default() -> (r: Self)
        ensures
            r == (WinSz { row: 0, col: 0, xpx: 0, ypx: 0 }),
    {
        WinSz { row: 0, col: 0, xpx: 0, ypx: 0 }
    }
}

} // verus!
