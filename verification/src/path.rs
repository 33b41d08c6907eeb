//! Repository paths: non-empty byte-string components joined by `/`.
//!
//! An [`MPathElement`] is one name inside a directory: a non-empty byte
//! string holding neither the separator nor a zero byte. An [`MPath`] is a
//! non-empty sequence of elements, parsed from its joined byte form. A
//! [`PathTree`] batches sparse path-keyed values into an in-memory trie so
//! that a set of edits can be applied to a manifest in one pass.

use vstd::prelude::*;

verus! {

/// An error from parsing a path or a path element.
#[derive(Clone, Copy, PartialEq, Eq, Structural, Debug)]
pub enum PathError {
    /// A path element was empty or held a separator or zero byte.
    InvalidElement,
    /// A path was empty, or an element between separators was invalid.
    InvalidPath,
}

/// The separator between path elements in joined byte form.
pub const PATH_SEPARATOR: u8 = 47;

/// True of byte strings that may stand as one path element: non-empty,
/// holding neither the separator nor a zero byte, and of bounded length.
pub open spec fn valid_element_bytes(s: Seq<u8>) -> bool {
    &&& 0 < s.len() < 0x1_0000_0000
    &&& forall|i: int| 0 <= i < s.len() ==> s[i] != PATH_SEPARATOR && s[i] != 0u8
}

/// One name inside a directory.
#[derive(Debug)]
pub struct MPathElement {
    bytes: Vec<u8>,
}

impl View for MPathElement {
    type V = Seq<u8>;

    closed spec fn view(&self) -> Seq<u8> {
        self.bytes@
    }
}

impl Clone for MPathElement {
    /// A clone carries the same bytes.
    fn clone(&self) -> (r: Self)
        ensures
            r@ == self@,
    {
        proof {
            use_type_invariant(self);
        }
        MPathElement { bytes: vstd::slice::slice_to_vec(self.bytes.as_slice()) }
    }
}

impl PartialEq for MPathElement {
    fn eq(&self, other: &Self) -> (r: bool) {
        bytes_eq(&self.bytes, &other.bytes)
    }
}

impl vstd::std_specs::cmp::PartialEqSpecImpl for MPathElement {
    open spec fn obeys_eq_spec() -> bool {
        true
    }

    open spec fn eq_spec(&self, other: &Self) -> bool {
        self@ == other@
    }
}

/// Compare two byte vectors for equality of their contents.
pub fn bytes_eq(a: &Vec<u8>, b: &Vec<u8>) -> (r: bool)
    ensures
        r == (a@ == b@),
{
    if a.len() != b.len() {
        return false;
    }
    let mut i: usize = 0;
    while i < a.len()
        invariant
            0 <= i <= a@.len(),
            a@.len() == b@.len(),
            forall|j: int| 0 <= j < i ==> a@[j] == b@[j],
        decreases a@.len() - i,
    {
        if a[i] != b[i] {
            return false;
        }
        i = i + 1;
    }
    proof {
        assert(a@ =~= b@);
    }
    true
}

impl MPathElement {
    /// Every element holds valid bytes: its constructors refuse others.
    #[verifier::type_invariant]
    pub open spec fn element_inv(&self) -> bool {
        self.is_valid()
    }

    /// True when this element holds valid bytes.
    pub open spec fn is_valid(&self) -> bool {
        valid_element_bytes(self@)
    }


    /// Make an element from its bytes, rejecting invalid ones.
    pub fn new(bytes: Vec<u8>) -> (r: Result<Self, PathError>)
        ensures
            r is Ok <==> valid_element_bytes(bytes@),
            r matches Ok(e) ==> e@ == bytes@,
    {
        if bytes.len() == 0 || (bytes.len() as u64) >= 0x1_0000_0000u64 {
            return Err(PathError::InvalidElement);
        }
        let mut i: usize = 0;
        while i < bytes.len()
            invariant
                0 <= i <= bytes@.len(),
                forall|j: int| 0 <= j < i ==> bytes@[j] != PATH_SEPARATOR && bytes@[j] != 0u8,
            decreases bytes@.len() - i,
        {
            if bytes[i] == PATH_SEPARATOR || bytes[i] == 0 {
                return Err(PathError::InvalidElement);
            }
            i = i + 1;
        }
        Ok(MPathElement { bytes })
    }

    /// The bytes of this element.
    pub fn bytes(&self) -> (r: &Vec<u8>)
        ensures
            r@ == self@,
    {
        &self.bytes
    }

    /// The number of bytes in this element.
    pub fn len(&self) -> (r: usize)
        ensures
            r == self@.len(),
    {
        self.bytes.len()
    }
}

/// True when `a` is a prefix of `b`.
pub open spec fn is_path_prefix(a: Seq<Seq<u8>>, b: Seq<Seq<u8>>) -> bool {
    a.len() <= b.len() && a == b.subrange(0, a.len() as int)
}

/// The deep view of a path: the byte string of each element in order.
pub open spec fn path_view(elements: Seq<MPathElement>) -> Seq<Seq<u8>> {
    Seq::new(elements.len(), |i: int| elements[i]@)
}

/// The joined byte form of a path: elements separated by `/`.
pub open spec fn path_join(p: Seq<Seq<u8>>) -> Seq<u8>
    decreases p.len(),
{
    if p.len() == 0 {
        Seq::empty()
    } else if p.len() == 1 {
        p[0]
    } else {
        path_join(p.drop_last()) + seq![PATH_SEPARATOR] + p.last()
    }
}

/// True of byte strings that parse as a path: non-empty, bounded, free of
/// zero bytes, with no leading, trailing or doubled separator.
pub open spec fn valid_path_bytes(s: Seq<u8>) -> bool {
    &&& 0 < s.len() < 0x1_0000_0000
    &&& s[0] != PATH_SEPARATOR
    &&& s[s.len() - 1] != PATH_SEPARATOR
    &&& forall|i: int| 0 <= i < s.len() ==> s[i] != 0u8
    &&& forall|i: int|
        0 < i < s.len() ==> !(#[trigger] s[i] == PATH_SEPARATOR && s[i - 1] == PATH_SEPARATOR)
}

/// A non-empty path: a sequence of elements below a manifest root.
#[derive(Debug)]
pub struct MPath {
    elements: Vec<MPathElement>,
}

impl View for MPath {
    type V = Seq<Seq<u8>>;

    closed spec fn view(&self) -> Seq<Seq<u8>> {
        path_view(self.elements@)
    }
}

impl Clone for MPath {
    /// A clone carries the same elements.
    fn clone(&self) -> (r: Self)
        ensures
            r@ == self@,
    {
        let mut elements: Vec<MPathElement> = Vec::new();
        let mut i: usize = 0;
        while i < self.elements.len()
            invariant
                0 <= i <= self.elements@.len(),
                elements@.len() == i,
                forall|j: int| 0 <= j < i ==> #[trigger] elements@[j]@ == self.elements@[j]@,
            decreases self.elements@.len() - i,
        {
            elements.push(self.elements[i].clone());
            i = i + 1;
        }
        proof {
            assert(path_view(elements@) =~= path_view(self.elements@));
        }
        MPath { elements }
    }
}

impl MPath {
    /// True when this path is well-formed.
    pub open spec fn is_valid(&self) -> bool {
        &&& 0 < self@.len()
        &&& forall|i: int| 0 <= i < self@.len() ==> valid_element_bytes(#[trigger] self@[i])
    }

    /// The number of elements in this path.
    pub fn depth(&self) -> (r: usize)
        ensures
            r == self@.len(),
    {
        self.elements.len()
    }

    /// The elements of this path, first element first.
    pub fn elements(&self) -> (r: &Vec<MPathElement>)
        ensures
            path_view(r@) == self@,
    {
        &self.elements
    }

    /// A path of a single element.
    pub fn from_element(element: MPathElement) -> (r: Self)
        ensures
            r@ =~= seq![element@],
            element.is_valid() ==> r.is_valid(),
    {
        let mut elements: Vec<MPathElement> = Vec::new();
        elements.push(element);
        MPath { elements }
    }

    /// Extend an optional path by one trailing element: the joined path for
    /// `Some`, a path of one element for `None`.
    pub fn join_opt_element(path: Option<&MPath>, name: &MPathElement) -> (r: MPath)
        ensures
            match path {
                Some(p) => r@ =~= p@ + seq![name@],
                None => r@ =~= seq![name@],
            },
            name.is_valid() && (path matches Some(p) ==> p.is_valid()) ==> r.is_valid(),
    {
        let mut elements: Vec<MPathElement> = match path {
            Some(p) => p.clone().elements,
            None => Vec::new(),
        };
        elements.push(name.clone());
        MPath { elements }
    }

    /// Parse a path from its joined byte form.
    ///
    /// Succeeds exactly on valid path bytes; the parsed elements are all
    /// valid and join back to the given bytes.
    #[verifier::rlimit(100)]
    pub fn new(bytes: &[u8]) -> (r: Result<Self, PathError>)
        ensures
            r is Ok <==> valid_path_bytes(bytes@),
            r matches Ok(p) ==> p.is_valid() && path_join(p@) == bytes@,
    {
        let n = bytes.len();
        if n == 0 || (n as u64) >= 0x1_0000_0000u64 {
            return Err(PathError::InvalidPath);
        }
        let mut elements: Vec<MPathElement> = Vec::new();
        let mut cur: Vec<u8> = Vec::new();
        let mut i: usize = 0;
        let ghost s = bytes@;
        while i < n
            invariant
                0 <= i <= n,
                n == s.len(),
                0 < n < 0x1_0000_0000,
                s == bytes@,
                cur@.len() <= i,
                cur@ =~= s.subrange(i - cur@.len(), i as int),
                cur@.len() == i || s[i - cur@.len() - 1] == PATH_SEPARATOR,
                forall|j: int| 0 <= j < cur@.len() ==> cur@[j] != PATH_SEPARATOR && cur@[j] != 0u8,
                forall|k: int|
                    0 <= k < elements@.len() ==> valid_element_bytes(#[trigger] elements@[k]@),
                elements@.len() == 0 ==> cur@.len() == i,
                elements@.len() > 0 ==> cur@.len() < i && path_join(path_view(elements@))
                    =~= s.subrange(0, i - cur@.len() - 1),
                // the prefix scanned so far breaks no path validity rule
                i > 0 ==> s[0] != PATH_SEPARATOR,
                forall|j: int| 0 <= j < i ==> s[j] != 0u8,
                forall|j: int|
                    0 < j < i ==> !(#[trigger] s[j] == PATH_SEPARATOR && s[j - 1]
                        == PATH_SEPARATOR),
            decreases n - i,
        {
            let b = bytes[i];
            if b == 0 {
                return Err(PathError::InvalidPath);
            }
            if b == PATH_SEPARATOR {
                if cur.len() == 0 {
                    // a leading or doubled separator
                    return Err(PathError::InvalidPath);
                }
                let ghost old_elements = elements@;
                let ghost old_cur = cur@;
                let ghost ll = cur@.len() as int;
                let element = MPathElement { bytes: cur };
                elements.push(element);
                cur = Vec::new();
                proof {
                    assert(valid_element_bytes(old_cur));
                    assert(path_view(elements@).drop_last() =~= path_view(old_elements));
                    assert(path_view(elements@).last() == old_cur);
                    assert(old_cur[ll - 1] == s[i - 1]);
                    if old_elements.len() == 0 {
                        assert(ll == i as int);
                        assert(path_join(path_view(elements@)) == old_cur);
                        assert(path_join(path_view(elements@)) =~= s.subrange(0, i as int));
                    } else {
                        assert(path_join(path_view(elements@)) == path_join(
                            path_view(old_elements),
                        ) + seq![PATH_SEPARATOR] + old_cur);
                        assert(s[i - ll - 1] == PATH_SEPARATOR);
                        assert(s.subrange(0, i - ll - 1) + seq![PATH_SEPARATOR] + s.subrange(
                            i - ll,
                            i as int,
                        ) =~= s.subrange(0, i as int));
                        assert(path_join(path_view(elements@)) =~= s.subrange(0, i as int));
                    }
                }
            } else {
                cur.push(b);
                proof {
                    assert(cur@ =~= s.subrange(i as int + 1 - cur@.len(), i as int + 1));
                }
            }
            i = i + 1;
        }
        if cur.len() == 0 {
            // the path ended with a separator
            return Err(PathError::InvalidPath);
        }
        let ghost old_elements = elements@;
        let ghost old_cur = cur@;
        let ghost ll = cur@.len() as int;
        let element = MPathElement { bytes: cur };
        elements.push(element);
        proof {
            assert(valid_element_bytes(old_cur));
            assert(path_view(elements@).drop_last() =~= path_view(old_elements));
            assert(path_view(elements@).last() == old_cur);
            if old_elements.len() == 0 {
                assert(ll == n as int);
                assert(old_cur =~= s);
                assert(path_join(path_view(elements@)) == old_cur);
            } else {
                assert(path_join(path_view(elements@)) == path_join(path_view(old_elements))
                    + seq![PATH_SEPARATOR] + old_cur);
                assert(s[n - ll - 1] == PATH_SEPARATOR);
                assert(s.subrange(0, n - ll - 1) + seq![PATH_SEPARATOR] + s.subrange(
                    n - ll,
                    n as int,
                ) =~= s);
                assert(path_join(path_view(elements@)) =~= s);
            }
            assert(s[n - 1] == old_cur[ll - 1]);
            assert(forall|k: int|
                0 <= k < path_view(elements@).len() ==> path_view(elements@)[k] == elements@[k]@);
            assert(valid_path_bytes(s));
        }
        Ok(MPath { elements })
    }
}

} // verus!
