//! Small verified helpers for moving between strings and character vectors.

use vstd::prelude::*;
use vstd::string::StrSliceExecFns;

verus! {

/// Relies on `String::push`: appends the given character to the end of the
/// string.
#[verifier::external_body]
pub(crate) fn push_char(s: &mut String, c: char)
    ensures
        final(s)@ == old(s)@.push(c),
{
    s.push(c);
}

/// The characters of a string slice, in order.
#[verifier::loop_isolation(false)]
pub(crate) fn chars_of_str(data: &str) -> (v: Vec<char>)
    ensures
        v@ == data@,
{
    let n: usize = data.unicode_len();
    let mut v: Vec<char> = Vec::new();
    let mut i: usize = 0;
    while i < n
        invariant
            0 <= i <= n,
            n == data@.len(),
            v@ == data@.take(i as int),
        decreases n - i,
    {
        v.push(data.get_char(i));
        proof {
            assert(data@.take(i as int).push(data@[i as int]) =~= data@.take(i + 1));
        }
        i += 1;
    }
    proof {
        assert(data@.take(n as int) =~= data@);
    }
    v
}

/// The characters of `v` from `start` on, `n` of them, as a string.
#[verifier::loop_isolation(false)]
pub(crate) fn string_from_range(v: &Vec<char>, start: usize, n: usize) -> (s: String)
    requires
        start + n <= v@.len(),
    ensures
        s@ == v@.subrange(start as int, start as int + n as int),
{
    let vl: usize = v.len();
    let mut s = String::new();
    let mut k: usize = 0;
    while k < n
        invariant
            0 <= k <= n,
            start + n <= vl,
            vl == v@.len(),
            s@ == v@.subrange(start as int, start as int + k as int),
        decreases n - k,
    {
        push_char(&mut s, v[start + k]);
        proof {
            assert(v@.subrange(start as int, start as int + k as int).push(v@[start + k])
                =~= v@.subrange(start as int, start as int + (k + 1)));
        }
        k += 1;
    }
    s
}

} // verus!
