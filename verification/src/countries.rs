//! Lists of country codes, written as one string with a bar between the codes.

use vstd::prelude::*;
use vstd::string::StrSliceExecFns;
use vstd::utf8::encode_utf8;
use crate::types::strings_view;

verus! {

/// The pieces of `s` that the bars in it part: one more than it has bars, in
/// their order, each without a bar. A piece may be empty.
pub open spec fn split_at_bars(s: Seq<char>) -> Seq<Seq<char>>
    decreases s.len(),
{
    if s.len() == 0 {
        seq![Seq::<char>::empty()]
    } else {
        let init = split_at_bars(s.drop_last());
        if s.last() == '|' {
            init.push(Seq::<char>::empty())
        } else {
            init.update(init.len() - 1, init.last().push(s.last()))
        }
    }
}

/// The number of bars in `s`.
pub open spec fn bar_count(s: Seq<char>) -> nat
    decreases s.len(),
{
    if s.len() == 0 {
        0
    } else {
        bar_count(s.drop_last()) + if s.last() == '|' {
            1nat
        } else {
            0nat
        }
    }
}

/// Whether `s`, as text in UTF-8, holds more than two bytes besides its bars.
pub open spec fn names_a_country(s: Seq<char>) -> bool {
    encode_utf8(s).len() as usize > bar_count(s) + 2
}

/// Decides `names_a_country`.
pub fn check_names_a_country(s: &str) -> (r: bool)
    ensures
        r == names_a_country(s@),
{
    let n: usize = s.unicode_len();
    let mut bars: usize = 0;
    let mut i: usize = 0;
    while i < n
        invariant
            i <= n,
            n == s@.len(),
            bars == bar_count(s@.take(i as int)),
            bars <= i,
        decreases n - i,
    {
        proof {
            assert(s@.take(i + 1).drop_last() =~= s@.take(i as int));
        }
        if s.get_char(i) == '|' {
            bars = bars + 1;
        }
        i = i + 1;
    }
    assert(s@.take(n as int) =~= s@);
    s.len() as u128 > bars as u128 + 2
}

/// Parts `s` at its bars, see `split_at_bars`.
pub fn split_countries(s: &str) -> (r: Vec<String>)
    ensures
        strings_view(r@) == split_at_bars(s@),
{
    let n: usize = s.unicode_len();
    let mut out: Vec<String> = Vec::new();
    let mut start: usize = 0;
    let mut i: usize = 0;
    proof {
        assert(s@.take(0).len() == 0);
        assert(s@.subrange(0, 0) =~= Seq::<char>::empty());
        assert(strings_view(out@).push(s@.subrange(0, 0)) =~= seq![Seq::<char>::empty()]);
    }
    while i < n
        invariant
            start <= i <= n,
            n == s@.len(),
            strings_view(out@).push(s@.subrange(start as int, i as int)) =~= split_at_bars(
                s@.take(i as int),
            ),
        decreases n - i,
    {
        proof {
            assert(s@.take(i + 1).drop_last() =~= s@.take(i as int));
            assert(s@.take(i + 1).last() == s@[i as int]);
            assert(s@.subrange(start as int, i as int).push(s@[i as int]) =~= s@.subrange(
                start as int,
                i + 1,
            ));
        }
        let ghost before = strings_view(out@);
        let ghost piece = s@.subrange(start as int, i as int);
        if s.get_char(i) == '|' {
            out.push(s.substring_char(start, i).to_owned());
            start = i + 1;
            proof {
                assert(strings_view(out@) =~= before.push(piece));
                assert(s@.subrange(start as int, i + 1) =~= Seq::<char>::empty());
            }
        }
        i = i + 1;
    }
    let ghost before = strings_view(out@);
    out.push(s.substring_char(start, n).to_owned());
    proof {
        assert(s@.take(n as int) =~= s@);
        assert(strings_view(out@) =~= before.push(s@.subrange(start as int, n as int)));
    }
    out
}

} // verus!
