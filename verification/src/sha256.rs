//! SHA-2 (256 bit). The compression rounds work on 32-bit words with
//! wrapping arithmetic; the message is consumed in 64-byte chunks, padded
//! with a 1-bit, zeros and the bit length. Verification covers safety
//! (indexing, arithmetic and termination); the digest values themselves
//! are pinned by the standard test vectors in the tests.

use vstd::prelude::*;
use vstd::slice::slice_to_vec;

verus! {

struct BufState {
    data: Vec<u8>,
    len: usize,
    total_len: usize,
    single: bool,
    total: bool,
}

/// How much work is left before `calc_chunk` reports completion.
spec fn chunk_measure(s: BufState) -> int {
    s.data@.len() + (if s.total {
        0int
    } else {
        2int
    }) + (if s.single {
        0int
    } else {
        1int
    })
}

spec fn buf_wf(s: BufState) -> bool {
    &&& s.data@.len() <= s.len
    &&& (s.len >= 64 ==> s.data@.len() == s.len)
}

/// Fills `chunk` with the next 64 bytes of the padded message; returns
/// whether the chunk must be compressed (false once everything, padding
/// included, has been handed out).
#[verifier::loop_isolation(false)]
fn calc_chunk(chunk: &mut [u8; 64], state: &mut BufState) -> (more: bool)
    requires
        buf_wf(*old(state)),
    ensures
        buf_wf(*final(state)),
        more ==> chunk_measure(*final(state)) < chunk_measure(*old(state)),
{
    if state.total {
        return false;
    }
    if state.len >= 64 {
        let mut x: usize = 0;
        while x < 64
            invariant
                x <= 64,
                state.data@.len() == old(state).data@.len() - x,
                old(state).data@.len() >= 64,
                state.len == old(state).len,
                state.total_len == old(state).total_len,
                state.single == old(state).single,
                state.total == old(state).total,
            decreases 64 - x,
        {
            chunk[x] = state.data[0];
            state.data.remove(0);
            x = x + 1;
        }
        state.len = state.len - 64;
        return true;
    }
    let remaining: usize = state.data.len();
    let space: usize = 64 - remaining;
    let mut x: usize = 0;
    while x < remaining
        invariant
            x <= remaining,
            remaining < 64,
            state.data@.len() == remaining - x,
            state.len == old(state).len,
            state.total_len == old(state).total_len,
            state.single == old(state).single,
            state.total == old(state).total,
        decreases remaining - x,
    {
        chunk[x] = state.data[0];
        state.data.remove(0);
        x = x + 1;
    }
    if !state.single {
        chunk[remaining] = 0x80;
        state.single = true;
    }
    if space >= 8 {
        let mut len: usize = state.total_len;
        chunk[63] = #[verifier::truncate] ((len << 3) as u8);
        len = len >> 5;
        let mut i: usize = 1;
        while i < 8
            invariant
                1 <= i <= 8,
            decreases 8 - i,
        {
            chunk[63 - i] = #[verifier::truncate] (len as u8);
            len = len >> 8;
            i = i + 1;
        }
        state.total = true;
    }
    true
}

/// Rotates a 32-bit word right by `n` bits (`0 < n < 32`).
fn rotr(x: u32, n: u32) -> u32
    requires
        0 < n < 32,
{
    (x >> n) | (x << ((32 - n) as u32))
}

/// Computes the SHA-256 digest of `data`.
#[verifier::loop_isolation(false)]
pub fn sha256(data: &[u8]) -> [u8; 32] {
    let mut hash: [u8; 32] = [0; 32];

    let mut h: [u32; 8] = [
        0x6a09e667,
        0xbb67ae85,
        0x3c6ef372,
        0xa54ff53a,
        0x510e527f,
        0x9b05688c,
        0x1f83d9ab,
        0x5be0cd19,
    ];

    let k: [u32; 64] = [
        0x428a2f98,
        0x71374491,
        0xb5c0fbcf,
        0xe9b5dba5,
        0x3956c25b,
        0x59f111f1,
        0x923f82a4,
        0xab1c5ed5,
        0xd807aa98,
        0x12835b01,
        0x243185be,
        0x550c7dc3,
        0x72be5d74,
        0x80deb1fe,
        0x9bdc06a7,
        0xc19bf174,
        0xe49b69c1,
        0xefbe4786,
        0x0fc19dc6,
        0x240ca1cc,
        0x2de92c6f,
        0x4a7484aa,
        0x5cb0a9dc,
        0x76f988da,
        0x983e5152,
        0xa831c66d,
        0xb00327c8,
        0xbf597fc7,
        0xc6e00bf3,
        0xd5a79147,
        0x06ca6351,
        0x14292967,
        0x27b70a85,
        0x2e1b2138,
        0x4d2c6dfc,
        0x53380d13,
        0x650a7354,
        0x766a0abb,
        0x81c2c92e,
        0x92722c85,
        0xa2bfe8a1,
        0xa81a664b,
        0xc24b8b70,
        0xc76c51a3,
        0xd192e819,
        0xd6990624,
        0xf40e3585,
        0x106aa070,
        0x19a4c116,
        0x1e376c08,
        0x2748774c,
        0x34b0bcb5,
        0x391c0cb3,
        0x4ed8aa4a,
        0x5b9cca4f,
        0x682e6ff3,
        0x748f82ee,
        0x78a5636f,
        0x84c87814,
        0x8cc70208,
        0x90befffa,
        0xa4506ceb,
        0xbef9a3f7,
        0xc67178f2,
    ];

    let mut chunk: [u8; 64] = [0; 64];

    let data_vec: Vec<u8> = slice_to_vec(data);
    let n = data_vec.len();
    let mut state: BufState = BufState {
        data: data_vec,
        len: n,
        total_len: n,
        single: false,
        total: false,
    };

    loop
        invariant
            buf_wf(state),
        decreases chunk_measure(state),
    {
        let more = calc_chunk(&mut chunk, &mut state);
        if !more {
            break ;
        }
        let mut ah: [u32; 8] = h;
        let mut w: [u32; 16] = [0; 16];
        let mut i: usize = 0;
        while i < 4
            invariant
                i <= 4,
            decreases 4 - i,
        {
            let mut j: usize = 0;
            while j < 16
                invariant
                    i <= 3,
                    j <= 16,
                decreases 16 - j,
            {
                if i == 0 {
                    w[j] = (
                        ((chunk[j * 4] as u32) << 24u32) | ((chunk[j * 4 + 1] as u32) << 16u32) | (
                        (chunk[j * 4 + 2] as u32) << 8u32) | (chunk[j * 4 + 3] as u32));
                } else {
                    let s0 = (rotr(w[(j + 1) % 16], 7) ^ rotr(w[(j + 1) % 16], 18)) ^ (w[(j + 1)
                        % 16] >> 3u32);
                    let s1 = rotr(w[(j + 14) % 16], 17) ^ rotr(w[(j + 14) % 16], 19) ^ (w[(j + 14)
                        % 16] >> 10u32);
                    w[j] = (
                        w[j].wrapping_add(s0).wrapping_add(w[(j + 9) % 16]).wrapping_add(s1));
                }
                let s1: u32 = rotr(ah[4], 6) ^ rotr(ah[4], 11) ^ rotr(ah[4], 25);
                let ch: u32 = (ah[4] & ah[5]) ^ (!ah[4] & ah[6]);
                let temp1: u32 = ah[7].wrapping_add(s1).wrapping_add(ch).wrapping_add(
                    k[i * 16 + j],
                ).wrapping_add(w[j]);
                let s0: u32 = rotr(ah[0], 2) ^ rotr(ah[0], 13) ^ rotr(ah[0], 22);
                let maj: u32 = (ah[0] & ah[1]) ^ (ah[0] & ah[2]) ^ (ah[1] & ah[2]);
                let temp2: u32 = s0.wrapping_add(maj);

                ah[7] = ah[6];
                ah[6] = ah[5];
                ah[5] = ah[4];
                ah[4] = ah[3].wrapping_add(temp1);
                ah[3] = ah[2];
                ah[2] = ah[1];
                ah[1] = ah[0];
                ah[0] = temp1.wrapping_add(temp2);
                j = j + 1;
            }
            i = i + 1;
        }

        let mut i: usize = 0;
        while i < 8
            invariant
                i <= 8,
            decreases 8 - i,
        {
            h[i] = h[i].wrapping_add(ah[i]);
            i = i + 1;
        }
        chunk = [0; 64];
    }

    let mut i: usize = 0;
    while i < 8
        invariant
            i <= 8,
        decreases 8 - i,
    {
        hash[i * 4] = #[verifier::truncate] ((h[i] >> 24u32) as u8);
        hash[i * 4 + 1] = #[verifier::truncate] ((h[i] >> 16u32) as u8);
        hash[i * 4 + 2] = #[verifier::truncate] ((h[i] >> 8u32) as u8);
        hash[i * 4 + 3] = #[verifier::truncate] (h[i] as u8);
        i = i + 1;
    }

    hash
}

} // verus!
