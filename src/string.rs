//! The kernel's routines on NUL-terminated byte strings.

use vstd::prelude::*;

verus! {

/// Whether reading `s` one byte at a time up to position `n` stays in
/// bounds: `s` holds `n` bytes, or a NUL that ends the read earlier.
pub open spec fn readable(s: Seq<u8>, n: int) -> bool {
    n <= s.len() || s.contains(0u8)
}

/// The position of the first NUL of `s` at or after `i` and before `n`, or
/// `n` when there is none.
pub open spec fn nul_from(s: Seq<u8>, i: int, n: int) -> int
    decreases n - i,
{
    if i >= n {
        n
    } else if s[i] == 0 {
        i
    } else {
        nul_from(s, i + 1, n)
    }
}

/// The result of comparing at most `n - i` bytes of `p` and `q` from
/// position `i` on: zero when they agree up to a NUL or up to `n`, else the
/// difference of the first bytes that differ.
pub open spec fn cmp_from(p: Seq<u8>, q: Seq<u8>, i: int, n: int) -> int
    decreases n - i,
{
    if i >= n {
        0
    } else if p[i] != 0 && p[i] == q[i] {
        cmp_from(p, q, i + 1, n)
    } else {
        p[i] - q[i]
    }
}

/// What `strncpy` leaves in `s`: the bytes of `t` up to its first NUL, then
/// NULs up to `n`, then what `s` held.
pub open spec fn strncpy_result(s: Seq<u8>, t: Seq<u8>, n: int) -> Seq<u8> {
    Seq::new(
        s.len(),
        |i: int|
            if i < n && i < nul_from(t, 0, n) {
                t[i]
            } else if i < n {
                0u8
            } else {
                s[i]
            },
    )
}

/// How many bytes `safestrcpy` copies from `t`: up to and including its
/// first NUL, and at most `n`.
pub open spec fn copied_len(t: Seq<u8>, n: int) -> int {
    if n <= 0 {
        0
    } else if nul_from(t, 0, n) < n {
        nul_from(t, 0, n) + 1
    } else {
        n
    }
}

/// What `safestrcpy` leaves in `s`: the copied bytes of `t`, then one NUL.
pub open spec fn safestrcpy_result(s: Seq<u8>, t: Seq<u8>, n: int) -> Seq<u8> {
    Seq::new(
        s.len(),
        |i: int|
            if i < copied_len(t, n) {
                t[i]
            } else if i == copied_len(t, n) {
                0u8
            } else {
                s[i]
            },
    )
}

proof fn lemma_nul_from_bounds(s: Seq<u8>, i: int, n: int)
    requires
        i <= n,
    ensures
        i <= nul_from(s, i, n) <= n,
        nul_from(s, i, n) < n ==> s[nul_from(s, i, n)] == 0,
        forall|j: int| i <= j < nul_from(s, i, n) ==> s[j] != 0,
    decreases n - i,
{
    if i < n && s[i] != 0 {
        lemma_nul_from_bounds(s, i + 1, n);
    }
}

/// A readable string has its first NUL before `n` inside its bounds, or
/// holds `n` bytes.
proof fn lemma_readable(s: Seq<u8>, n: int)
    requires
        0 <= n,
        readable(s, n),
    ensures
        nul_from(s, 0, n) < n ==> nul_from(s, 0, n) < s.len(),
        nul_from(s, 0, n) == n ==> n <= s.len(),
{
    lemma_nul_from_bounds(s, 0, n);
    if n > s.len() {
        let z = choose|z: int| 0 <= z < s.len() && s[z] == 0u8;
        if nul_from(s, 0, n) > z {
            assert(s[z] != 0);
        }
    }
}

/// Whether comparing `p` and `q` from position `i` on, at most up to
/// position `n`, reads only bytes that both hold: each position it reaches
/// is in bounds, and it goes on past one only while `p` has no NUL there and
/// the two agree.
pub open spec fn cmp_readable(p: Seq<u8>, q: Seq<u8>, i: int, n: int) -> bool
    decreases n - i,
{
    if i >= n {
        true
    } else {
        &&& 0 <= i < p.len()
        &&& i < q.len()
        &&& (p[i] != 0 && p[i] == q[i] ==> cmp_readable(p, q, i + 1, n))
    }
}

/// Compares at most `n` bytes of the strings `p` and `q`, stopping after a
/// NUL. Returns zero when they agree, else the difference of the first bytes
/// that differ.
pub fn strncmp(p: &[u8], q: &[u8], n: u32) -> (r: i32)
    requires
        cmp_readable(p@, q@, 0, n as int),
    ensures
        r as int == cmp_from(p@, q@, 0, n as int),
{
    let mut i: u32 = 0;
    while i < n && p[i as usize] != 0 && p[i as usize] == q[i as usize]
        invariant
            i <= n,
            cmp_readable(p@, q@, i as int, n as int),
            cmp_from(p@, q@, i as int, n as int) == cmp_from(p@, q@, 0, n as int),
        decreases n - i,
    {
        i = i + 1;
    }
    if i == n {
        return 0;
    }
    p[i as usize] as i32 - q[i as usize] as i32
}

/// The length of the string at the start of `s`: the position of its first
/// NUL.
pub fn strlen(s: &[u8]) -> (r: usize)
    requires
        s@.contains(0u8),
    ensures
        r == nul_from(s@, 0, s@.len() as int),
        r < s@.len(),
        s@[r as int] == 0,
{
    proof {
        lemma_readable(s@, s@.len() as int);
        lemma_nul_from_bounds(s@, 0, s@.len() as int);
        let z = choose|z: int| 0 <= z < s@.len() && s@[z] == 0u8;
        assert(nul_from(s@, 0, s@.len() as int) <= z);
    }
    let mut len: usize = 0;
    while s[len] != 0
        invariant
            len <= nul_from(s@, 0, s@.len() as int),
            nul_from(s@, 0, s@.len() as int) < s@.len(),
            s@[nul_from(s@, 0, s@.len() as int)] == 0,
            forall|j: int| 0 <= j < nul_from(s@, 0, s@.len() as int) ==> s@[j] != 0,
        decreases s@.len() - len,
    {
        len = len + 1;
    }
    len
}

/// Copies the string `t` into the first `n` bytes of `s`, and fills what
/// is left of those `n` bytes with NULs.
pub fn strncpy(s: &mut [u8], t: &[u8], n: i32)
    requires
        n <= old(s)@.len(),
        readable(t@, n as int),
    ensures
        final(s)@ == strncpy_result(old(s)@, t@, n as int),
{
    let ghost k = nul_from(t@, 0, n as int);
    proof {
        if n >= 0 {
            lemma_readable(t@, n as int);
            lemma_nul_from_bounds(t@, 0, n as int);
        }
    }
    let ghost want = strncpy_result(old(s)@, t@, n as int);
    let mut i: i32 = 0;
    let mut stop = false;
    while i < n && !stop
        invariant
            0 <= i,
            n >= 0 ==> i <= n,
            n < 0 ==> i == 0,
            k == nul_from(t@, 0, n as int),
            s@.len() == old(s)@.len(),
            n <= s@.len(),
            n >= 0 ==> 0 <= k <= n,
            n >= 0 && k < n ==> k < t@.len() && t@[k] == 0,
            n >= 0 && k == n ==> n <= t@.len(),
            forall|j: int| 0 <= j < k ==> t@[j] != 0,
            stop ==> i == k + 1 && k < n,
            !stop && n >= 0 ==> i <= k,
            forall|j: int| 0 <= j < i ==> s@[j] == if j < k { t@[j] } else { 0u8 },
            forall|j: int| i <= j < s@.len() ==> s@[j] == old(s)@[j],
        decreases n - i,
    {
        let b = t[i as usize];
        s[i as usize] = b;
        i = i + 1;
        if b == 0 {
            stop = true;
        }
    }
    while i < n
        invariant
            0 <= i,
            n >= 0 ==> i <= n,
            n < 0 ==> i == 0,
            k == nul_from(t@, 0, n as int),
            s@.len() == old(s)@.len(),
            n <= s@.len(),
            n >= 0 ==> k <= i,
            forall|j: int| 0 <= j < i ==> s@[j] == if j < k { t@[j] } else { 0u8 },
            forall|j: int| i <= j < s@.len() ==> s@[j] == old(s)@[j],
        decreases n - i,
    {
        s[i as usize] = 0;
        i = i + 1;
    }
    assert forall|j: int| 0 <= j < s@.len() implies s@[j] == want[j] by {
        assert(want[j] == (if j < n && j < k {
            t@[j]
        } else if j < n {
            0u8
        } else {
            old(s)@[j]
        }));
        if j < i {
            assert(s@[j] == if j < k { t@[j] } else { 0u8 });
        }
    }
    assert(s@ =~= want);
}

/// Copies the string `t` into `s`, at most `n` bytes of it, and ends the
/// copy with a NUL.
pub fn safestrcpy(s: &mut [u8], t: &[u8], n: i32)
    requires
        readable(t@, n as int),
        copied_len(t@, n as int) < old(s)@.len(),
    ensures
        final(s)@ == safestrcpy_result(old(s)@, t@, n as int),
{
    let ghost k = nul_from(t@, 0, n as int);
    proof {
        if n >= 0 {
            lemma_readable(t@, n as int);
            lemma_nul_from_bounds(t@, 0, n as int);
        }
    }
    let ghost want = safestrcpy_result(old(s)@, t@, n as int);
    let mut i: i32 = 0;
    let mut stop = false;
    while i < n && !stop
        invariant
            0 <= i,
            n >= 0 ==> i <= n,
            n < 0 ==> i == 0,
            k == nul_from(t@, 0, n as int),
            s@.len() == old(s)@.len(),
            copied_len(t@, n as int) < s@.len(),
            n >= 0 ==> 0 <= k <= n,
            n >= 0 && k < n ==> k < t@.len() && t@[k] == 0,
            n >= 0 && k == n ==> n <= t@.len(),
            forall|j: int| 0 <= j < k ==> t@[j] != 0,
            stop ==> i == k + 1 && k < n,
            !stop && n >= 0 ==> i <= k,
            forall|j: int| 0 <= j < i ==> s@[j] == t@[j],
            forall|j: int| i <= j < s@.len() ==> s@[j] == old(s)@[j],
        decreases n - i,
    {
        let b = t[i as usize];
        s[i as usize] = b;
        i = i + 1;
        if b == 0 {
            stop = true;
        }
    }
    assert(i == copied_len(t@, n as int)) by {
        if n >= 0 && !stop {
            assert(i == n);
        }
    }
    s[i as usize] = 0;
    assert(s@ =~= want);
}

} // verus!
