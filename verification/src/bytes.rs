//! Small helpers on byte vectors. Paths are handled as plain byte strings,
//! the way an operating system hands them out.

use vstd::prelude::*;

verus! {

/// The path separator.
pub const SEPARATOR: u8 = 47;

/// The path of an entry named `name` inside the directory `dir`:
/// `dir`, a separator, `name`.
pub open spec fn spec_join(dir: Seq<u8>, name: Seq<u8>) -> Seq<u8> {
    dir + seq![SEPARATOR] + name
}

/// The mathematical value of a list of paths.
pub open spec fn path_views(s: Seq<Vec<u8>>) -> Seq<Seq<u8>> {
    s.map_values(|p: Vec<u8>| p@)
}

/// Byte-for-byte equality of two byte vectors.
pub fn bytes_eq(a: &Vec<u8>, b: &Vec<u8>) -> (r: bool)
    ensures
        r == (a@ == b@),
{
    if a.len() != b.len() {
        return false;
    }
    let n = a.len();
    let mut i: usize = 0;
    while i < n
        invariant
            n == a@.len() == b@.len(),
            0 <= i <= n,
            forall|j: int| 0 <= j < i ==> a@[j] == b@[j],
        decreases n - i,
    {
        if a[i] != b[i] {
            return false;
        }
        i = i + 1;
    }
    proof {
        assert(a@ =~= b@);
    }
    true
}

/// A fresh copy of a byte vector.
pub fn clone_bytes(v: &Vec<u8>) -> (r: Vec<u8>)
    ensures
        r@ == v@,
{
    let mut r: Vec<u8> = Vec::new();
    let n = v.len();
    let mut i: usize = 0;
    while i < n
        invariant
            n == v@.len(),
            0 <= i <= n,
            r@ == v@.take(i as int),
        decreases n - i,
    {
        r.push(v[i]);
        proof {
            assert(r@ =~= v@.take(i + 1));
        }
        i = i + 1;
    }
    proof {
        assert(v@.take(n as int) =~= v@);
    }
    r
}

/// Joins a directory path and an entry name with the separator.
pub fn join_path(dir: &Vec<u8>, name: &Vec<u8>) -> (r: Vec<u8>)
    ensures
        r@ == spec_join(dir@, name@),
{
    let mut r = clone_bytes(dir);
    r.push(SEPARATOR);
    let n = name.len();
    let mut i: usize = 0;
    while i < n
        invariant
            n == name@.len(),
            0 <= i <= n,
            r@ == dir@ + seq![SEPARATOR] + name@.take(i as int),
        decreases n - i,
    {
        r.push(name[i]);
        proof {
            assert(r@ =~= dir@ + seq![SEPARATOR] + name@.take(i + 1));
        }
        i = i + 1;
    }
    proof {
        assert(dir@ + seq![SEPARATOR] + name@.take(n as int) =~= spec_join(dir@, name@));
    }
    r
}

} // verus!
