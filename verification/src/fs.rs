use vstd::prelude::*;

verus! {

/// The identity of a filesystem node (its inode number).
#[derive(Clone, Copy, Debug, PartialEq, Eq, Structural)]
pub struct NodeId(pub u32);

/// A single path component: 1 to 255 printable ASCII bytes, no `/`, not `.` or `..`.
#[derive(Clone, Debug, PartialEq, Eq)]
pub struct Name(Vec<u8>);

/// Why a byte string is not a valid path component.
#[derive(Clone, Copy, Debug, PartialEq, Eq, Structural)]
pub enum NameError {
    Empty,
    TooLong,
    InvalidByte,
    Allocation,
}

/// The kind of a filesystem node.
#[derive(Clone, Copy, Debug, PartialEq, Eq, Structural)]
pub enum NodeKind {
    Regular,
    Directory,
}

/// What is known about a node without reading its contents.
#[derive(Clone, Copy, Debug, PartialEq, Eq, Structural)]
pub struct Metadata {
    pub kind: NodeKind,
    pub len: u64,
    pub mode: u16,
}

/// One entry of a directory listing.
#[derive(Clone, Debug, PartialEq, Eq)]
pub struct DirEntry {
    pub name: Name,
    pub node: NodeId,
    pub kind: NodeKind,
}

/// The longest component accepted.
pub const MAX_NAME_BYTES: usize = 255;

/// Why `b` is not a valid component, or `None` if it is one.
pub open spec fn name_check(b: Seq<u8>) -> Option<NameError> {
    if b.len() == 0 {
        Some(NameError::Empty)
    } else if b.len() > MAX_NAME_BYTES {
        Some(NameError::TooLong)
    } else if b == seq![0x2eu8] || b == seq![0x2eu8, 0x2e] || exists|i: int|
        0 <= i < b.len() && !(0x20 <= #[trigger] b[i] <= 0x7e && b[i] != 0x2f) {
        Some(NameError::InvalidByte)
    } else {
        None
    }
}

impl View for Name {
    type V = Seq<u8>;

    closed spec fn view(&self) -> Seq<u8> {
        self.0@
    }
}

impl Name {
    /// Validates and copies a path component. Only a refused allocation can make a valid
    /// component fail, with `Allocation`.
    pub fn new(bytes: &[u8]) -> (r: Result<Self, NameError>)
        ensures
            match name_check(bytes@) {
                Some(e) => r == Err::<Self, NameError>(e),
                None => r == Err::<Self, NameError>(NameError::Allocation) || (r matches Ok(n)
                    && n@ == bytes@),
            },
    {
        if bytes.len() == 0 {
            return Err(NameError::Empty);
        }
        if bytes.len() > MAX_NAME_BYTES {
            return Err(NameError::TooLong);
        }
        let dot = bytes.len() == 1 && bytes[0] == 0x2e;
        let dot_dot = bytes.len() == 2 && bytes[0] == 0x2e && bytes[1] == 0x2e;
        if dot || dot_dot {
            proof {
                if dot {
                    assert(bytes@ =~= seq![0x2eu8]);
                } else {
                    assert(bytes@ =~= seq![0x2eu8, 0x2e]);
                }
            }
            return Err(NameError::InvalidByte);
        }
        let mut i: usize = 0;
        while i < bytes.len()
            invariant
                i <= bytes@.len(),
                0 < bytes@.len() <= MAX_NAME_BYTES,
                forall|j: int| 0 <= j < i ==> 0x20 <= #[trigger] bytes@[j] <= 0x7e && bytes@[j] != 0x2f,
            decreases bytes@.len() - i,
        {
            let b = bytes[i];
            if !(0x20 <= b && b <= 0x7e) || b == 0x2f {
                assert(!(0x20 <= bytes@[i as int] <= 0x7e && bytes@[i as int] != 0x2f));
                return Err(NameError::InvalidByte);
            }
            i += 1;
        }
        proof {
            if bytes@ == seq![0x2eu8] {
                assert(bytes@.len() == 1 && bytes@[0] == 0x2e);
            }
            if bytes@ == seq![0x2eu8, 0x2e] {
                assert(bytes@.len() == 2 && bytes@[0] == 0x2e && bytes@[1] == 0x2e);
            }
        }
        let mut name: Vec<u8> = Vec::new();
        if name.try_reserve(bytes.len()).is_err() {
            return Err(NameError::Allocation);
        }
        let mut k: usize = 0;
        while k < bytes.len()
            invariant
                k <= bytes@.len(),
                name@ == bytes@.subrange(0, k as int),
            decreases bytes@.len() - k,
        {
            name.push(bytes[k]);
            assert(name@ =~= bytes@.subrange(0, k + 1));
            k += 1;
        }
        assert(name@ =~= bytes@);
        Ok(Self(name))
    }

    /// The component's bytes.
    pub fn as_bytes(&self) -> (r: &[u8])
        ensures
            r@ == self@,
    {
        self.0.as_slice()
    }
}

} // verus!
