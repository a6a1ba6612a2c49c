//! Small verified helpers over byte strings.
//!
//! All text in this crate is carried as `Vec<u8>`: article bodies, titles,
//! filenames and chunk texts.  The helpers here are the byte-level
//! building blocks the other modules share.

use vstd::prelude::*;

verus! {

/// The byte value of an ASCII space.
pub const SPACE: u8 = 32;

/// The byte value of a newline.
pub const NEWLINE: u8 = 10;

/// Append every byte of `src` to `dst`.
pub fn push_all(dst: &mut Vec<u8>, src: &Vec<u8>)
    ensures
        final(dst)@ == old(dst)@ + src@,
{
    let mut i: usize = 0;
    while i < src.len()
        invariant
            i <= src.len(),
            dst@ == old(dst)@ + src@.take(i as int),
        decreases src.len() - i,
    {
        dst.push(src[i]);
        proof {
            assert(old(dst)@ + src@.take(i as int + 1)
                =~= (old(dst)@ + src@.take(i as int)).push(src@[i as int]));
        }
        i = i + 1;
    }
    proof {
        assert(src@.take(src@.len() as int) =~= src@);
    }
}

/// A fresh copy of a byte vector.
pub fn copy_bytes(src: &Vec<u8>) -> (r: Vec<u8>)
    ensures
        r@ == src@,
{
    let mut r: Vec<u8> = Vec::new();
    push_all(&mut r, src);
    proof {
        assert(Seq::<u8>::empty() + src@ =~= src@);
    }
    r
}

/// A fresh copy of a vector of 64-bit words.
pub fn copy_words(src: &Vec<u64>) -> (r: Vec<u64>)
    ensures
        r@ == src@,
{
    let mut r: Vec<u64> = Vec::new();
    let mut i: usize = 0;
    while i < src.len()
        invariant
            i <= src.len(),
            r@ == src@.take(i as int),
        decreases src.len() - i,
    {
        r.push(src[i]);
        proof {
            assert(src@.take(i as int + 1) =~= src@.take(i as int).push(src@[i as int]));
        }
        i = i + 1;
    }
    proof {
        assert(src@.take(src@.len() as int) =~= src@);
    }
    r
}

/// Whether two byte strings hold the same bytes.
pub fn bytes_eq(a: &Vec<u8>, b: &Vec<u8>) -> (r: bool)
    ensures
        r == (a@ == b@),
{
    if a.len() != b.len() {
        proof {
            assert(a@.len() != b@.len());
        }
        return false;
    }
    let mut i: usize = 0;
    while i < a.len()
        invariant
            i <= a.len(),
            a@.len() == b@.len(),
            forall|j: int| 0 <= j < i ==> a@[j] == b@[j],
        decreases a.len() - i,
    {
        if a[i] != b[i] {
            return false;
        }
        i = i + 1;
    }
    proof {
        assert(a@ =~= b@);
    }
    true
}

/// The part of `path` after its last `/`, or all of it when it has none.
pub open spec fn base_name_spec(path: Seq<u8>) -> Seq<u8>
    decreases path.len(),
{
    if path.len() == 0 {
        path
    } else if path.last() == 47 {
        Seq::<u8>::empty()
    } else {
        base_name_spec(path.drop_last()).push(path.last())
    }
}

/// The base name of a path: what follows the last `/` byte.
pub fn file_base_name(path: &Vec<u8>) -> (r: Vec<u8>)
    ensures
        r@ == base_name_spec(path@),
{
    let mut start: usize = path.len();
    proof {
        assert(path@.take(start as int) =~= path@);
        assert(base_name_spec(path@) + path@.skip(start as int) =~= base_name_spec(path@));
    }
    while start > 0 && path[start - 1] != 47
        invariant
            start <= path.len(),
            base_name_spec(path@) == base_name_spec(path@.take(start as int))
                + path@.skip(start as int),
        decreases start,
    {
        proof {
            let p = path@.take(start as int);
            assert(p.last() == path@[start as int - 1]);
            assert(p.drop_last() =~= path@.take(start as int - 1));
            assert(base_name_spec(p) == base_name_spec(p.drop_last()).push(p.last()));
            assert(base_name_spec(path@.take(start as int - 1))
                + path@.skip(start as int - 1)
                =~= (base_name_spec(path@.take(start as int - 1)).push(path@[start as int - 1]))
                    + path@.skip(start as int));
        }
        start = start - 1;
    }
    proof {
        let p = path@.take(start as int);
        if start == 0 {
            assert(p =~= Seq::<u8>::empty());
            assert(base_name_spec(p) == p);
        } else {
            assert(p.last() == path@[start as int - 1]);
            assert(base_name_spec(p) =~= Seq::<u8>::empty());
        }
        assert(base_name_spec(path@) =~= path@.skip(start as int));
    }
    let mut r: Vec<u8> = Vec::new();
    let mut i: usize = start;
    while i < path.len()
        invariant
            start <= i <= path.len(),
            r@ == path@.subrange(start as int, i as int),
        decreases path.len() - i,
    {
        r.push(path[i]);
        proof {
            assert(path@.subrange(start as int, i as int + 1)
                =~= path@.subrange(start as int, i as int).push(path@[i as int]));
        }
        i = i + 1;
    }
    proof {
        assert(r@ =~= path@.skip(start as int));
    }
    r
}

} // verus!
