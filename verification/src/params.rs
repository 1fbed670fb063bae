//! The parameter record that every dispatch of a run receives as a uniform,
//! and its layout in device memory.
use vstd::prelude::*;

verus! {

/// The uniform of a run: the vertex count and the row stride of the
/// buffers, fixed for all its rounds.
#[derive(Clone, Copy, Debug, PartialEq, Eq, Structural)]
pub struct KernelParams {
    pub n: u32,
    pub stride: u32,
}

/// Byte `k` of a word, counted from its least significant byte.
pub open spec fn byte_of(word: u32, k: int) -> u8 {
    if k == 0 {
        (word % 0x100) as u8
    } else if k == 1 {
        ((word / 0x100) % 0x100) as u8
    } else if k == 2 {
        ((word / 0x1_0000) % 0x100) as u8
    } else {
        ((word / 0x100_0000) % 0x100) as u8
    }
}

/// The words laid out in memory with each word's least significant byte
/// first.
pub open spec fn little_endian(words: Seq<u32>) -> Seq<u8> {
    Seq::new(4 * words.len(), |p: int| byte_of(words[p / 4], p % 4))
}

/// The words laid out in memory with each word's most significant byte
/// first.
pub open spec fn big_endian(words: Seq<u32>) -> Seq<u8> {
    Seq::new(4 * words.len(), |p: int| byte_of(words[p / 4], 3 - p % 4))
}

/// `bytemuck::cast_slice` from `u32` to `u8`, copied into a vector.
///
/// The cast reinterprets the words' memory as bytes: four bytes for each
/// word, in the order of the words, and within a word in the byte order of
/// the machine. Believed, not proved: that the bytes are the words' bytes in
/// one of the two byte orders, the same for every word. From `u32` to `u8`
/// the cast cannot fail, since a byte needs no alignment and every length
/// in bytes is whole.
#[verifier::external_body]
fn words_as_bytes(words: &Vec<u32>) -> (bytes: Vec<u8>)
    ensures
        bytes@ == little_endian(words@) || bytes@ == big_endian(words@),
{
    bytemuck::cast_slice::<u32, u8>(words.as_slice()).to_vec()
}

impl KernelParams {
    /// The record for `n` vertices at row stride `stride`; `None` where
    /// either does not fit the 32 bits that the kernel reads.
    pub fn new(n: usize, stride: usize) -> (params: Option<KernelParams>)
        ensures
            match params {
                Some(params) => params.n == n && params.stride == stride,
                None => n > u32::MAX || stride > u32::MAX,
            },
    {
        if n > u32::MAX as usize || stride > u32::MAX as usize {
            None
        } else {
            Some(KernelParams { n: n as u32, stride: stride as u32 })
        }
    }

    /// The two words of the record in the order the kernel reads them.
    pub open spec fn words(self) -> Seq<u32> {
        seq![self.n, self.stride]
    }

    /// The eight bytes written to the parameter buffer: `n`, then `stride`,
    /// each in the byte order of the machine.
    pub fn to_bytes(&self) -> (bytes: Vec<u8>)
        ensures
            bytes@.len() == 8,
            bytes@ == little_endian(self.words()) || bytes@ == big_endian(self.words()),
    {
        let mut words: Vec<u32> = Vec::new();
        words.push(self.n);
        words.push(self.stride);
        assert(words@ =~= self.words());
        words_as_bytes(&words)
    }
}

} // verus!
