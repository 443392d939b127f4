//! Byte-string keys.
//!
//! A `Slice` owns a contiguous run of bytes and offers length, prefix and
//! three-way comparison operations.  Cache keys and arena inputs are
//! `Slice` values; the cache keeps the bytes it is handed, so entries stay
//! valid however the caller's buffers are reused.

use vstd::prelude::*;

verus! {

use vstd::string::StrSliceExecFns;
use vstd::string::StringSliceAdditionalSpecFns;

/// An owned run of bytes used as a key.
#[derive(Debug)]
pub struct Slice {
    data: Vec<u8>,
}

impl View for Slice {
    type V = Seq<u8>;

    closed spec fn view(&self) -> Seq<u8> {
        self.data@
    }
}

/// Lexicographic "less than" on byte strings: `a` is a strict prefix of
/// `b`, or the two differ at some position where `a` holds the smaller
/// byte.
pub open spec fn spec_bytes_lt(a: Seq<u8>, b: Seq<u8>) -> bool
    decreases a.len(),
{
    if a.len() == 0 {
        b.len() > 0
    } else if b.len() == 0 {
        false
    } else if a[0] != b[0] {
        a[0] < b[0]
    } else {
        spec_bytes_lt(a.skip(1), b.skip(1))
    }
}

impl Slice {
    /// Create a slice owning the given bytes.
    pub fn new(data: Vec<u8>) -> (s: Slice)
        ensures
            s@ == data@,
    {
        Slice { data }
    }

    /// Create an empty slice.
    pub fn new_empty() -> (s: Slice)
        ensures
            s@ == Seq::<u8>::empty(),
    {
        Slice { data: Vec::new() }
    }

    /// Create a slice holding the UTF-8 bytes of `str`.
    pub fn new_from_string(str: String) -> (s: Slice)
        ensures
            s@ == vstd::utf8::encode_utf8(str@),
    {
        Slice { data: str.as_str().as_bytes_vec() }
    }

    /// Return the referenced data.
    pub fn slice_data(&self) -> (d: &[u8])
        ensures
            d@ == self@,
    {
        self.data.as_slice()
    }

    /// Return the length (in bytes) of the referenced data.
    pub fn size(&self) -> (n: usize)
        ensures
            n == self@.len(),
    {
        self.data.len()
    }

    /// Return true iff the length of the referenced data is zero.
    pub fn empty(&self) -> (b: bool)
        ensures
            b == (self@.len() == 0),
    {
        self.data.len() == 0
    }

    /// Change this slice to hold no bytes.
    pub fn clear(&mut self)
        ensures
            final(self)@ == Seq::<u8>::empty(),
    {
        self.data = Vec::new();
    }

    /// Drop the first `n` bytes from this slice.
    pub fn remove_prefix(&mut self, n: usize)
        requires
            n <= old(self)@.len(),
        ensures
            final(self)@ == old(self)@.skip(n as int),
    {
        let len = self.data.len();
        let mut rest: Vec<u8> = Vec::new();
        let mut i: usize = n;
        while i < len
            invariant
                n <= i <= len,
                len == self.data@.len(),
                self.data@ == old(self).data@,
                rest@ == self.data@.subrange(n as int, i as int),
            decreases len - i,
        {
            rest.push(self.data[i]);
            i += 1;
        }
        assert(rest@ == self.data@.skip(n as int));
        self.data = rest;
    }

    /// Return true iff `x` is a prefix of `self`.
    pub fn starts_with(&self, x: &Slice) -> (b: bool)
        ensures
            b == (self@.len() >= x@.len() && self@.subrange(0, x@.len() as int) == x@),
    {
        if self.data.len() < x.data.len() {
            return false;
        }
        let n = x.data.len();
        let mut i: usize = 0;
        while i < n
            invariant
                0 <= i <= n,
                n == x@.len() <= self@.len(),
                forall|j: int| 0 <= j < i ==> self@[j] == x@[j],
            decreases n - i,
        {
            if self.data[i] != x.data[i] {
                assert(self@.subrange(0, n as int)[i as int] != x@[i as int]);
                return false;
            }
            i += 1;
        }
        assert(self@.subrange(0, n as int) =~= x@);
        true
    }

    /// Three-way comparison with `b`, in lexicographic byte order:
    /// `Less` iff `self` sorts before `b`, `Equal` iff the bytes agree,
    /// `Greater` otherwise.
    pub fn compare(&self, b: &Slice) -> (r: core::cmp::Ordering)
        ensures
            r == core::cmp::Ordering::Less <==> spec_bytes_lt(self@, b@),
            r == core::cmp::Ordering::Equal <==> self@ == b@,
            r == core::cmp::Ordering::Greater <==> spec_bytes_lt(b@, self@),
    {
        let a_len = self.data.len();
        let b_len = b.data.len();
        let min_len = if a_len < b_len { a_len } else { b_len };
        let mut i: usize = 0;
        while i < min_len
            invariant
                0 <= i <= min_len,
                a_len == self@.len(),
                b_len == b@.len(),
                min_len == if a_len < b_len { a_len } else { b_len },
                forall|j: int| 0 <= j < i ==> self@[j] == b@[j],
            decreases min_len - i,
        {
            let x = self.data[i];
            let y = b.data[i];
            if x < y {
                proof {
                    lemma_bytes_lt_at(self@, b@, i as int);
                    lemma_bytes_lt_asym(self@, b@);
                }
                return core::cmp::Ordering::Less;
            }
            if x > y {
                proof {
                    lemma_bytes_lt_at(b@, self@, i as int);
                    lemma_bytes_lt_asym(b@, self@);
                }
                return core::cmp::Ordering::Greater;
            }
            i += 1;
        }
        if a_len < b_len {
            proof {
                lemma_bytes_lt_prefix(self@, b@);
                lemma_bytes_lt_asym(self@, b@);
            }
            core::cmp::Ordering::Less
        } else if a_len > b_len {
            proof {
                lemma_bytes_lt_prefix(b@, self@);
                lemma_bytes_lt_asym(b@, self@);
            }
            core::cmp::Ordering::Greater
        } else {
            assert(self@ =~= b@);
            proof {
                if spec_bytes_lt(self@, b@) {
                    lemma_bytes_lt_asym(self@, b@);
                }
            }
            core::cmp::Ordering::Equal
        }
    }
}

impl Slice {
    /// Return a string holding a copy of the referenced data, which
    /// must be valid UTF-8.
    ///
    /// Relies on `String::from_utf8`: on valid UTF-8 input it returns
    /// the string whose bytes are exactly the input bytes.
    #[verifier::external_body]
    pub fn to_string(&self) -> (s: String)
        requires
            vstd::utf8::valid_utf8(self@),
        ensures
            vstd::utf8::encode_utf8(s@) == self@,
    {
        String::from_utf8(self.data.clone()).unwrap_or_default()
    }
}

impl Clone for Slice {
    fn clone(&self) -> (c: Slice)
        ensures
            c@ == self@,
    {
        let mut data: Vec<u8> = Vec::new();
        let n = self.data.len();
        let mut i: usize = 0;
        while i < n
            invariant
                0 <= i <= n,
                n == self@.len(),
                data@ == self@.subrange(0, i as int),
            decreases n - i,
        {
            data.push(self.data[i]);
            i += 1;
        }
        assert(data@ =~= self@);
        Slice { data }
    }
}

impl PartialEq for Slice {
    fn eq(&self, other: &Slice) -> (r: bool) {
        let n = self.data.len();
        if n != other.data.len() {
            return false;
        }
        let mut i: usize = 0;
        while i < n
            invariant
                0 <= i <= n,
                n == self@.len() == other@.len(),
                forall|j: int| 0 <= j < i ==> self@[j] == other@[j],
            decreases n - i,
        {
            if self.data[i] != other.data[i] {
                return false;
            }
            i += 1;
        }
        assert(self@ =~= other@);
        true
    }
}

impl vstd::std_specs::cmp::PartialEqSpecImpl for Slice {
    open spec fn obeys_eq_spec() -> bool {
        true
    }

    open spec fn eq_spec(&self, other: &Slice) -> bool {
        self@ == other@
    }
}

impl Eq for Slice {}

/// The lexicographic order is asymmetric, hence also irreflexive.
proof fn lemma_bytes_lt_asym(a: Seq<u8>, b: Seq<u8>)
    requires
        spec_bytes_lt(a, b),
    ensures
        !spec_bytes_lt(b, a),
        a != b,
    decreases a.len(),
{
    if a.len() == 0 {
        assert(b.len() > 0);
    } else if a[0] == b[0] {
        lemma_bytes_lt_asym(a.skip(1), b.skip(1));
        if a == b {
            assert(a.skip(1) == b.skip(1));
        }
    }
}

/// If two byte strings agree before position `i` and `a` holds the
/// smaller byte there, `a` sorts strictly before `b`.
proof fn lemma_bytes_lt_at(a: Seq<u8>, b: Seq<u8>, i: int)
    requires
        0 <= i < a.len(),
        i < b.len(),
        forall|j: int| 0 <= j < i ==> a[j] == b[j],
        a[i] < b[i],
    ensures
        spec_bytes_lt(a, b),
    decreases i,
{
    if i == 0 {
    } else {
        lemma_bytes_lt_at(a.skip(1), b.skip(1), i - 1);
    }
}

/// A strict prefix sorts strictly before the longer string.
proof fn lemma_bytes_lt_prefix(a: Seq<u8>, b: Seq<u8>)
    requires
        a.len() < b.len(),
        forall|j: int| 0 <= j < a.len() ==> a[j] == b[j],
    ensures
        spec_bytes_lt(a, b),
    decreases a.len(),
{
    if a.len() == 0 {
    } else {
        lemma_bytes_lt_prefix(a.skip(1), b.skip(1));
    }
}

} // verus!
