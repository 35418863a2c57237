//! The integer part of stream prediction: the feature a file name contributes, and the
//! stream a predicted cluster stands for.
use vstd::prelude::*;
use crate::state::Stream;

verus! {

/// The position of the first `.` in `s` at or after `i`, if any.
pub open spec fn dot_from(s: Seq<char>, i: int) -> Option<int>
    decreases s.len() - i,
{
    if i < 0 || i >= s.len() {
        None
    } else if s[i] == '.' {
        Some(i)
    } else {
        dot_from(s, i + 1)
    }
}

/// The sum of the character codes of `s`, wrapping at 2^32.
pub open spec fn char_code_sum(s: Seq<char>) -> u32
    decreases s.len(),
{
    if s.len() == 0 {
        0
    } else {
        char_code_sum(s.drop_last()).wrapping_add(s.last() as u32)
    }
}

/// The feature of a file name that stream prediction uses: the sum of the character codes
/// after its first `.`, or 0 when it has none.
pub open spec fn name_feature(s: Seq<char>) -> u32 {
    match dot_from(s, 0) {
        Some(i) => char_code_sum(s.skip(i + 1)),
        None => 0,
    }
}

/// The feature of a file name that stream prediction uses: the sum of the character codes
/// after its first `.` (wrapping at 2^32), or 0 when it has none.
pub fn filename_feature(filename: &str) -> (val: u32)
    ensures
        val == name_feature(filename@),
{
    let n = filename.unicode_len();
    let mut i: usize = 0;
    while i < n
        invariant
            n == filename@.len(),
            0 <= i <= n,
            dot_from(filename@, 0) == dot_from(filename@, i as int),
        ensures
            0 <= i <= n,
            dot_from(filename@, 0) == dot_from(filename@, i as int),
            i < n ==> filename@[i as int] == '.',
        decreases n - i,
    {
        if filename.get_char(i) == '.' {
            break;
        }
        i = i + 1;
    }
    if i >= n {
        return 0;
    }
    let ghost rest = filename@.skip(i + 1);
    let mut val: u32 = 0;
    let mut j: usize = i + 1;
    proof {
        assert(rest.subrange(0, 0) =~= Seq::<char>::empty());
    }
    while j < n
        invariant
            n == filename@.len(),
            i + 1 <= j <= n,
            rest == filename@.skip(i + 1),
            val == char_code_sum(rest.subrange(0, j - (i + 1))),
        decreases n - j,
    {
        let c = filename.get_char(j);
        proof {
            let k = j - (i + 1);
            assert(rest.subrange(0, k + 1).drop_last() =~= rest.subrange(0, k));
            assert(rest.subrange(0, k + 1).last() == c);
        }
        val = val.wrapping_add(c as u32);
        j = j + 1;
    }
    proof {
        assert(rest.subrange(0, n - (i + 1)) =~= rest);
    }
    val
}

/// The stream a predicted cluster stands for: the first cluster is the log stream, any
/// other the sorted-table stream.
pub fn stream_for_cluster(target: usize) -> (s: Stream)
    ensures
        target == 0 ==> s == Stream::LOG,
        target != 0 ==> s == Stream::SSTable,
{
    if target == 0 {
        Stream::LOG
    } else {
        Stream::SSTable
    }
}

} // verus!
