//! Device identity: the stable public identifier a peer is known by, held as
//! its raw key bytes, and byte-string equality used wherever identifiers or
//! secrets are compared.

use vstd::prelude::*;
use crate::hex::hex_of;
use crate::hex::to_hex_string;

verus! {

/// Bytes in an identifier: the public half of the identity key.
pub const ID_LEN: usize = 32;

/// A well-formed identifier holds exactly `ID_LEN` bytes.
pub open spec fn wf_id(id: Seq<u8>) -> bool {
    id.len() == ID_LEN
}

/// The stable, globally unique identifier of a device.
pub struct EndpointId {
    pub bytes: Vec<u8>,
}

impl View for EndpointId {
    type V = Seq<u8>;

    open spec fn view(&self) -> Seq<u8> {
        self.bytes@
    }
}

/// Compares two byte strings; always scans the full length when the lengths
/// agree, so secret comparison leaks no position.
pub fn bytes_eq(a: &Vec<u8>, b: &Vec<u8>) -> (r: bool)
    ensures
        r == (a@ == b@),
{
    if a.len() != b.len() {
        proof {
            assert(a@ != b@);
        }
        return false;
    }
    let mut same = true;
    let mut i: usize = 0;
    while i < a.len()
        invariant
            i <= a@.len(),
            a@.len() == b@.len(),
            same == (forall|j: int| 0 <= j < i ==> a@[j] == b@[j]),
        decreases a@.len() - i,
    {
        let eq_here = a[i] == b[i];
        same = same && eq_here;
        i = i + 1;
    }
    proof {
        if same {
            assert(a@ =~= b@);
        }
    }
    same
}

impl EndpointId {
    /// Wraps raw identifier bytes.
    pub fn from_bytes(bytes: Vec<u8>) -> (r: Self)
        ensures
            r@ == bytes@,
    {
        EndpointId { bytes }
    }

    /// Whether two identifiers name the same device.
    pub fn same_as(&self, other: &EndpointId) -> (r: bool)
        ensures
            r == (self@ == other@),
    {
        bytes_eq(&self.bytes, &other.bytes)
    }

    /// The identifier's display form: its bytes in lowercase hex.
    pub fn to_hex(&self) -> (r: String)
        ensures
            r@ == hex_of(self@),
            r@.len() == 2 * self@.len(),
    {
        to_hex_string(&self.bytes)
    }
}

impl Clone for EndpointId {
    /// Copies the identifier.
    fn clone(&self) -> (r: Self)
        ensures
            r@ == self@,
    {
        let mut bytes: Vec<u8> = Vec::new();
        let mut i: usize = 0;
        while i < self.bytes.len()
            invariant
                i <= self.bytes@.len(),
                bytes@ =~= self.bytes@.subrange(0, i as int),
            decreases self.bytes@.len() - i,
        {
            bytes.push(self.bytes[i]);
            proof {
                assert(self.bytes@.subrange(0, i + 1) =~= self.bytes@.subrange(0, i as int)
                    + seq![self.bytes@[i as int]]);
            }
            i = i + 1;
        }
        proof {
            assert(self.bytes@.subrange(0, self.bytes@.len() as int) =~= self.bytes@);
        }
        EndpointId { bytes }
    }
}

/// Copies a byte string.
pub fn bytes_clone(v: &Vec<u8>) -> (r: Vec<u8>)
    ensures
        r@ == v@,
{
    let mut out: Vec<u8> = Vec::new();
    let mut i: usize = 0;
    while i < v.len()
        invariant
            i <= v@.len(),
            out@ =~= v@.subrange(0, i as int),
        decreases v@.len() - i,
    {
        out.push(v[i]);
        proof {
            assert(v@.subrange(0, i + 1) =~= v@.subrange(0, i as int) + seq![v@[i as int]]);
        }
        i = i + 1;
    }
    proof {
        assert(v@.subrange(0, v@.len() as int) =~= v@);
    }
    out
}

} // verus!
