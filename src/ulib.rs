//! The user library's C strings and command-line arguments.

use vstd::prelude::*;
use vstd::slice::slice_subrange;
use vstd::string::StringSliceAdditionalSpecFns;

verus! {

/// Whether `b` is the bytes of a C string: at least one byte, a NUL as the
/// last one and no NUL before it.
pub open spec fn is_c_bytes(b: Seq<u8>) -> bool {
    &&& b.len() > 0
    &&& b.last() == 0
    &&& forall|i: int| 0 <= i < b.len() - 1 ==> b[i] != 0
}

/// Whether `s` may stand in a `CStr`: ASCII only, and the bytes of a C
/// string.
pub open spec fn is_c_str(s: &str) -> bool {
    vstd::string::is_ascii(s) && is_c_bytes(s.spec_bytes())
}

/// A string slice that holds a valid C string, NUL terminator included.
#[derive(Clone, Copy)]
pub struct CStr<'a> {
    pub data: &'a str,
}

impl<'a> CStr<'a> {
    /// Whether the data is a valid C string.
    pub open spec fn wf(&self) -> bool {
        is_c_str(self.data)
    }

    /// The characters of the string, without the terminator.
    pub open spec fn chars(&self) -> Seq<u8> {
        self.data.spec_bytes().drop_last()
    }

    /// Checks whether `data` may stand in a `CStr`: ASCII only, ending in
    /// its one NUL.
    pub fn is_valid(data: &str) -> (r: bool)
        ensures
            r == is_c_str(data),
    {
        if !data.is_ascii() {
            return false;
        }
        let b = data.as_bytes();
        let len = b.len();
        if len == 0 || b[len - 1] != 0 {
            return false;
        }
        let mut i: usize = 0;
        while i < len - 1
            invariant
                b@ == data.spec_bytes(),
                len == b@.len(),
                0 < len,
                i <= len - 1,
                forall|j: int| 0 <= j < i ==> b@[j] != 0,
            decreases len - 1 - i,
        {
            if b[i] == 0 {
                return false;
            }
            i = i + 1;
        }
        true
    }

    /// Wraps `data`, which must be a valid C string.
    pub fn new(data: &'a str) -> (r: CStr<'a>)
        requires
            is_c_str(data),
        ensures
            r.data == data,
            r.wf(),
    {
        CStr { data }
    }

    /// The length of the string, not counting the terminator.
    pub fn len(&self) -> (r: usize)
        requires
            self.wf(),
        ensures
            r == self.chars().len(),
            r == self.data.spec_bytes().len() - 1,
    {
        self.data.as_bytes().len() - 1
    }

    /// Whether the string holds no character before its terminator.
    pub fn is_empty(&self) -> (r: bool)
        requires
            self.wf(),
        ensures
            r == (self.chars().len() == 0),
    {
        self.len() == 0
    }

    /// The bytes of the string, terminator included.
    pub fn as_bytes(&self) -> (r: &[u8])
        ensures
            r@ == self.data.spec_bytes(),
    {
        self.data.as_bytes()
    }

    /// The bytes of the string, without the terminator.
    pub fn chars_as_bytes(&self) -> (r: &[u8])
        requires
            self.wf(),
        ensures
            r@ == self.chars(),
    {
        let len = self.len();
        slice_subrange(self.data.as_bytes(), 0, len)
    }

    /// The string, terminator included.
    pub fn as_str(&self) -> (r: &str)
        ensures
            r == self.data,
    {
        self.data
    }
}

/// The arguments of a program, read one after the other.
pub struct Args<'a> {
    current: usize,
    args: Vec<CStr<'a>>,
}

impl<'a> Args<'a> {
    /// All the arguments, the program's name first.
    pub closed spec fn all(&self) -> Seq<CStr<'a>> {
        self.args@
    }

    /// How many arguments have been read.
    pub closed spec fn position(&self) -> nat {
        self.current as nat
    }

    pub closed spec fn wf(&self) -> bool {
        self.current <= self.args@.len()
    }

    /// The arguments `args`, none of them read yet.
    pub fn new(args: Vec<CStr<'a>>) -> (r: Args<'a>)
        ensures
            r.wf(),
            r.all() == args@,
            r.position() == 0,
    {
        Args { current: 0, args }
    }

    /// The number of arguments, including the program's name.
    pub fn argc(&self) -> (r: usize)
        ensures
            r == self.all().len(),
    {
        self.args.len()
    }

    /// The next argument not read yet, if any.
    pub fn next(&mut self) -> (r: Option<CStr<'a>>)
        requires
            old(self).wf(),
        ensures
            final(self).wf(),
            final(self).all() == old(self).all(),
            old(self).position() == old(self).all().len() ==> r is None && final(self).position()
                == old(self).position(),
            old(self).position() < old(self).all().len() ==> r == Some(
                old(self).all()[old(self).position() as int],
            ) && final(self).position() == old(self).position() + 1,
    {
        if self.current == self.args.len() {
            None
        } else {
            let a = self.args[self.current];
            self.current = self.current + 1;
            Some(a)
        }
    }
}

/// Where writing a string to standard output stands after one `write` call.
#[derive(Clone, Copy, Debug, PartialEq, Eq)]
pub enum WriteStep {
    /// Every byte is out.
    Done,
    /// This many bytes are out; write the rest.
    More(usize),
    /// The call failed: give up.
    Failed,
}

/// The next step of writing `len` bytes of which `written` are out, after a
/// `write` call on the rest returned `result`.
pub fn write_step(len: usize, written: usize, result: Result<usize, ()>) -> (r: WriteStep)
    requires
        written < len,
    ensures
        result is Err ==> r == WriteStep::Failed,
        result matches Ok(n) ==> r == (if written + n >= len {
            WriteStep::Done
        } else {
            WriteStep::More((written + n) as usize)
        }),
{
    match result {
        Err(()) => WriteStep::Failed,
        Ok(n) => if n >= len - written {
            WriteStep::Done
        } else {
            WriteStep::More(written + n)
        },
    }
}

} // verus!
