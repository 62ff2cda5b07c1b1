//! Content identity: a stable 64-bit identifier for a file path.
//!
//! The identifier is the standard library's default hash (SipHash-1-3 with
//! fixed keys) over the path's components, fed the same write stream that
//! `std::path::Path`'s `Hash` implementation produces on Unix: each
//! non-empty component's bytes as one write (a `.` component directly after
//! a separator is dropped, as path normalization would drop it), followed by
//! one write of a 64-bit closing state — it absorbs each component's byte
//! count with a wrapping add and is rotated right by two bits after each —
//! as eight little-endian bytes. The hasher itself is specified by vstd;
//! everything around it is verified.

use vstd::prelude::*;
use vstd::string::*;
use vstd::slice::slice_subrange;
use vstd::std_specs::hash::DefaultHasherAdditionalSpecFns;
use std::collections::hash_map::DefaultHasher;
use std::hash::Hasher;

verus! {

/// The byte that separates path components.
pub open spec fn is_sep_byte(b: u8) -> bool {
    b == 0x2Fu8
}

/// The eight bytes of `n` in little-endian order.
pub open spec fn le_bytes_8(n: u64) -> Seq<u8> {
    seq![
        (n & 0xff) as u8,
        ((n >> 8) & 0xff) as u8,
        ((n >> 16) & 0xff) as u8,
        ((n >> 24) & 0xff) as u8,
        ((n >> 32) & 0xff) as u8,
        ((n >> 40) & 0xff) as u8,
        ((n >> 48) & 0xff) as u8,
        ((n >> 56) & 0xff) as u8,
    ]
}

/// The component writes that remain when the scan is at byte `i` and the
/// current component started at `start`. A separator closes the component
/// before it (if non-empty); a lone `.` directly after a separator is
/// skipped.
pub open spec fn component_writes(bytes: Seq<u8>, start: int, i: int) -> Seq<Seq<u8>>
    decreases bytes.len() - i,
{
    if i < 0 || i >= bytes.len() {
        if 0 <= start < bytes.len() {
            seq![bytes.subrange(start, bytes.len() as int)]
        } else {
            Seq::empty()
        }
    } else if is_sep_byte(bytes[i]) {
        let w: Seq<Seq<u8>> = if i > start && start >= 0 {
            seq![bytes.subrange(start, i)]
        } else {
            Seq::empty()
        };
        let ns = if i + 2 <= bytes.len() && bytes[i + 1] == 0x2Eu8 && (i + 2 == bytes.len()
            || is_sep_byte(bytes[i + 2])) {
            i + 2
        } else {
            i + 1
        };
        w + component_writes(bytes, ns, i + 1)
    } else {
        component_writes(bytes, start, i + 1)
    }
}

/// A right rotation by two bits.
pub open spec fn rot_right_2(x: u64) -> u64 {
    (x >> 2) | (x << 62)
}

/// The closing state over a sequence of component writes: each write's
/// byte count is absorbed with a wrapping add, then the state is rotated
/// right by two bits.
pub open spec fn writes_acc(ws: Seq<Seq<u8>>) -> u64
    decreases ws.len(),
{
    if ws.len() == 0 {
        0
    } else {
        rot_right_2(
            vstd::wrapping::u64_specs::wrapping_add(
                writes_acc(ws.drop_last()),
                ws.last().len() as u64,
            ),
        )
    }
}

/// The full write stream hashed for a path given as UTF-8 bytes:
/// the components, then the closing state as eight bytes.
pub open spec fn path_writes(bytes: Seq<u8>) -> Seq<Seq<u8>> {
    let comps = component_writes(bytes, 0, 0);
    comps.push(le_bytes_8(writes_acc(comps)))
}

/// The content identifier of a path.
pub open spec fn path_content_id(path: Seq<char>) -> u64 {
    DefaultHasher::spec_finish(path_writes(vstd::utf8::encode_utf8(path)))
}

/// Executable right rotation by two bits.
fn rot_right_2_exec(x: u64) -> (r: u64)
    ensures
        r == rot_right_2(x),
{
    (x >> 2) | (x << 62)
}

/// Deterministic 64-bit identity of a path string; equal path strings are
/// given equal identifiers across runs.
pub fn generate_hash(path: &str) -> (r: u64)
    ensures
        r == path_content_id(path@),
{
    let bytes: Vec<u8> = path.as_bytes_vec();
    let n: usize = bytes.len();
    let mut hasher = DefaultHasher::new();
    let mut start: usize = 0;
    let mut hashed: u64 = 0;
    let mut i: usize = 0;
    while i < n
        invariant
            n == bytes@.len(),
            i <= n,
            start <= n,
            start <= i + 1,
            hashed == writes_acc(hasher@),
            hasher@ + component_writes(bytes@, start as int, i as int) == component_writes(
                bytes@,
                0,
                0,
            ),
        decreases n - i,
    {
        let ghost pre = hasher@;
        let ghost start0 = start as int;
        let b = bytes[i];
        if b == 0x2Fu8 {
            if i > start {
                let comp = slice_subrange(bytes.as_slice(), start, i);
                hasher.write(comp);
                proof {
                    assert(hasher@.drop_last() =~= pre);
                    assert(hasher@.last() == bytes@.subrange(start as int, i as int));
                }
                hashed = rot_right_2_exec(hashed.wrapping_add((i - start) as u64));
            }
            let rem = n - i;
            if rem >= 2 && bytes[i + 1] == 0x2Eu8 && (rem == 2 || bytes[i + 2] == 0x2Fu8) {
                start = i + 2;
            } else {
                start = i + 1;
            }
            proof {
                assert(hasher@ + component_writes(bytes@, start as int, i + 1) =~= pre
                    + component_writes(bytes@, start0, i as int)) by {
                    assert(component_writes(bytes@, start0, i as int) == (if i > start0 {
                        seq![bytes@.subrange(start0, i as int)]
                    } else {
                        Seq::<Seq<u8>>::empty()
                    }) + component_writes(bytes@, start as int, i + 1));
                }
            }
        } else {
            proof {
                assert(component_writes(bytes@, start as int, i as int) == component_writes(
                    bytes@,
                    start as int,
                    i + 1,
                ));
            }
        }
        i = i + 1;
    }
    if start < n {
        let ghost pre = hasher@;
        let comp = slice_subrange(bytes.as_slice(), start, n);
        hasher.write(comp);
        proof {
            assert(hasher@.drop_last() =~= pre);
            assert(component_writes(bytes@, start as int, n as int) =~= seq![
                bytes@.subrange(start as int, n as int),
            ]);
            assert(hasher@ =~= pre + component_writes(bytes@, start as int, n as int));
        }
        hashed = rot_right_2_exec(hashed.wrapping_add((n - start) as u64));
    } else {
        proof {
            assert(component_writes(bytes@, start as int, n as int) =~= Seq::<Seq<u8>>::empty());
            assert(hasher@ + component_writes(bytes@, start as int, n as int) =~= hasher@);
        }
    }
    proof {
        assert(hasher@ =~= component_writes(bytes@, 0, 0));
    }
    let ghost pre = hasher@;
    let h64: u64 = hashed;
    let tail: Vec<u8> = vec![
        (h64 & 0xff) as u8,
        ((h64 >> 8) & 0xff) as u8,
        ((h64 >> 16) & 0xff) as u8,
        ((h64 >> 24) & 0xff) as u8,
        ((h64 >> 32) & 0xff) as u8,
        ((h64 >> 40) & 0xff) as u8,
        ((h64 >> 48) & 0xff) as u8,
        ((h64 >> 56) & 0xff) as u8,
    ];
    hasher.write(tail.as_slice());
    proof {
        assert(tail@ =~= le_bytes_8(h64));
        assert(hasher@ =~= path_writes(bytes@));
    }
    hasher.finish()
}

/// Identity determinism: the identifier is a function of the path string
/// alone, so equal path strings always receive the same identifier.
pub proof fn lemma_identity_deterministic(p1: Seq<char>, p2: Seq<char>)
    requires
        p1 == p2,
    ensures
        path_content_id(p1) == path_content_id(p2),
{
}

} // verus!
