//! String tables: one contiguous blob of null-terminated strings.
//!
//! The storage format is one long character array, not an array of strings.
//! Splitting into individual strings is computed on demand: a string starts
//! at a byte offset and runs to the first null byte, or to the end of the
//! blob if no null follows (a missing trailing terminator is not an error).

use vstd::prelude::*;

use crate::error::{EcoffError, LayoutIssue};

verus! {

/// The index of the first null byte of `b` at or after `i`, or `b.len()`
/// if none follows.
pub open spec fn first_null_from(b: Seq<u8>, i: int) -> int
    recommends
        0 <= i <= b.len(),
    decreases b.len() - i,
{
    if i >= b.len() {
        b.len() as int
    } else if b[i] == 0 {
        i
    } else {
        first_null_from(b, i + 1)
    }
}

/// The first null at or after `i` lies between `i` and the end of `b`.
pub proof fn lemma_first_null_from_bounds(b: Seq<u8>, i: int)
    requires
        i <= b.len(),
    ensures
        i <= first_null_from(b, i) <= b.len(),
    decreases b.len() - i,
{
    if i < b.len() && b[i] != 0 {
        lemma_first_null_from_bounds(b, i + 1);
    }
}

/// The string starting at offset `off` of blob `b`: its bytes up to the
/// first null, or up to the end of the blob if no null follows.
pub open spec fn spec_string_at(b: Seq<u8>, off: int) -> Seq<u8>
    recommends
        0 <= off <= b.len(),
{
    b.subrange(off, first_null_from(b, off))
}

/// All strings of blob `b` from offset `off` on: the string at `off`,
/// then the strings after its terminator. An empty blob holds no strings.
pub open spec fn spec_strings_from(b: Seq<u8>, off: int) -> Seq<Seq<u8>>
    recommends
        0 <= off <= b.len(),
    decreases b.len() - off + 1,
        via spec_strings_from_decreases
{
    if off >= b.len() {
        Seq::empty()
    } else {
        seq![spec_string_at(b, off)] + spec_strings_from(b, first_null_from(b, off) + 1)
    }
}

#[via_fn]
proof fn spec_strings_from_decreases(b: Seq<u8>, off: int) {
    if off < b.len() {
        lemma_first_null_from_bounds(b, off);
    }
}

/// A blob of length zero holds an empty sequence of strings.
pub proof fn lemma_empty_blob_has_no_strings(b: Seq<u8>)
    requires
        b.len() == 0,
    ensures
        spec_strings_from(b, 0) == Seq::<Seq<u8>>::empty(),
{
}

/// One string table: a raw blob extracted from the input, with the
/// null-terminated strings read out of it on demand.
#[derive(Clone, Debug, PartialEq, Eq)]
pub struct StringTable {
    pub data: Vec<u8>,
}

impl View for StringTable {
    type V = Seq<u8>;

    open spec fn view(&self) -> Seq<u8> {
        self.data@
    }
}

impl StringTable {
    /// Wrap a raw blob.
    pub fn new(data: Vec<u8>) -> (t: StringTable)
        ensures
            t@ == data@,
    {
        StringTable { data }
    }

    /// Byte length of the blob.
    pub fn len(&self) -> (n: usize)
        ensures
            n == self@.len(),
    {
        self.data.len()
    }

    /// The string starting at byte offset `off`: its bytes up to the first
    /// null, or to the end of the blob. An offset past the end of the blob
    /// is a caller error, reported as an invalid layout.
    pub fn string_at(&self, off: usize) -> (r: Result<Vec<u8>, EcoffError>)
        ensures
            off <= self@.len() ==> (r matches Ok(s) && s@ == spec_string_at(
                self@,
                off as int,
            )),
            off > self@.len() ==> (r matches Err(e) && e == (EcoffError::InvalidLayout {
                reason: LayoutIssue::StringOffsetOutOfRange,
            })),
    {
        let n = self.data.len();
        if off > n {
            return Err(EcoffError::InvalidLayout { reason: LayoutIssue::StringOffsetOutOfRange });
        }
        let mut s: Vec<u8> = Vec::new();
        let mut i: usize = off;
        while i < n && self.data[i] != 0
            invariant
                off <= i <= n,
                n == self@.len(),
                s@ == self@.subrange(off as int, i as int),
                first_null_from(self@, i as int) == first_null_from(self@, off as int),
            decreases n - i,
        {
            s.push(self.data[i]);
            i = i + 1;
            proof {
                assert(s@ =~= self@.subrange(off as int, i as int));
            }
        }
        Ok(s)
    }

    /// All strings of the blob, in order. An empty blob yields an empty
    /// sequence of strings, not an error.
    pub fn strings(&self) -> (r: Vec<Vec<u8>>)
        ensures
            r.deep_view() == spec_strings_from(self@, 0),
    {
        let n = self.data.len();
        let mut out: Vec<Vec<u8>> = Vec::new();
        let mut off: usize = 0;
        proof {
            assert(out.deep_view() + spec_strings_from(self@, 0) =~= spec_strings_from(self@, 0));
        }
        while off < n
            invariant
                off <= n,
                n == self@.len(),
                out.deep_view() + spec_strings_from(self@, off as int) == spec_strings_from(
                    self@,
                    0,
                ),
            decreases n - off,
        {
            let s = match self.string_at(off) {
                Ok(v) => v,
                Err(_) => {
                    proof {
                        assert(false);
                    }
                    Vec::new()
                },
            };
            let slen = s.len();
            proof {
                lemma_first_null_from_bounds(self@, off as int);
                assert(first_null_from(self@, off as int) == off + slen);
            }
            let ghost prev = out.deep_view();
            out.push(s);
            proof {
                assert(out.deep_view() =~~= prev.push(s@));
                assert(prev.push(s@) =~= prev + seq![s@]);
                assert((prev + seq![spec_string_at(self@, off as int)]) + spec_strings_from(
                    self@,
                    off + slen + 1,
                ) =~= prev + (seq![spec_string_at(self@, off as int)] + spec_strings_from(
                    self@,
                    off + slen + 1,
                )));
            }
            if slen >= n - off {
                proof {
                    assert(spec_strings_from(self@, off + slen + 1) =~= Seq::<Seq<u8>>::empty());
                    assert(spec_strings_from(self@, n as int) =~= Seq::<Seq<u8>>::empty());
                    assert(out.deep_view() + spec_strings_from(self@, n as int) =~= out.deep_view()
                        + spec_strings_from(self@, off + slen + 1));
                }
                off = n;
            } else {
                off = off + slen + 1;
            }
        }
        out
    }
}

} // verus!
