//! What the `echo` program prints.

use crate::ulib::{Args, CStr};
use vstd::prelude::*;

verus! {

/// The output for the arguments `args` from position `i` on: each
/// argument's characters, followed by the C string `" "`, or `"\n"` after
/// the last one, each written with its NUL terminator.
pub open spec fn echo_from(args: Seq<CStr>, i: int) -> Seq<u8>
    decreases args.len() - i,
{
    if i < 0 || i >= args.len() {
        Seq::empty()
    } else {
        args[i].chars().push(if i + 1 < args.len() { 32u8 } else { 10u8 }).push(0u8).add(
            echo_from(args, i + 1),
        )
    }
}

/// Appends the bytes of `b` to `out`.
fn push_all(out: &mut Vec<u8>, b: &[u8])
    ensures
        final(out)@ == old(out)@.add(b@),
{
    let mut i: usize = 0;
    while i < b.len()
        invariant
            i <= b@.len(),
            out@ == old(out)@.add(b@.subrange(0, i as int)),
        decreases b@.len() - i,
    {
        out.push(b[i]);
        i = i + 1;
        assert(b@.subrange(0, i as int) == b@.subrange(0, i - 1).push(b@[i - 1]));
    }
    assert(b@.subrange(0, i as int) == b@);
}

/// The bytes that `echo` writes for the arguments `args`: every argument
/// after the program's name, each followed by a space, or by a newline
/// after the last, and each separator by a NUL.
pub fn echo_output(args: Args) -> (r: Vec<u8>)
    requires
        args.wf(),
        args.position() == 0,
        forall|i: int| 0 <= i < args.all().len() ==> (#[trigger] args.all()[i]).wf(),
    ensures
        r@ == echo_from(args.all(), 1),
{
    let mut args = args;
    let argc = args.argc();
    let ghost all = args.all();
    let mut out: Vec<u8> = Vec::new();
    let _ = args.next();
    let mut i: usize = 1;
    while i < argc
        invariant
            args.wf(),
            args.all() == all,
            argc == all.len(),
            1 <= i,
            argc > 0 ==> args.position() == i,
            forall|j: int| 0 <= j < all.len() ==> (#[trigger] all[j]).wf(),
            out@.add(echo_from(all, i as int)) == echo_from(all, 1),
        decreases argc - i,
    {
        match args.next() {
            Some(arg) => {
                push_all(&mut out, arg.chars_as_bytes());
                if i + 1 < argc {
                    out.push(32u8);
                } else {
                    out.push(10u8);
                }
                out.push(0u8);
                assert(out@.add(echo_from(all, i + 1)) =~= echo_from(all, 1));
            },
            None => {},
        }
        i = i + 1;
    }
    assert(out@.add(echo_from(all, i as int)) =~= out@);
    out
}

} // verus!
