//! Things found at a line of a file, and the order they are reported in:
//! by file, then by line, things at the same place keeping their order.

use vstd::prelude::*;
use crate::index::{less_than, text_lt};
use crate::text::{chars_of, str_eq};

verus! {

/// Something found at a line of a file.
pub trait Located: Sized {
    /// The file's path and the line.
    spec fn location(&self) -> (Seq<char>, usize);

    fn file_path(&self) -> (r: &String)
        ensures
            r@ == self.location().0;

    fn line_number(&self) -> (r: usize)
        ensures
            r == self.location().1;
}

/// `a` comes before `b`: an earlier file, or the same file and an
/// earlier line.
pub open spec fn location_lt(a: (Seq<char>, usize), b: (Seq<char>, usize)) -> bool {
    text_lt(a.0, b.0) || (a.0 == b.0 && a.1 < b.1)
}

/// `s` with `x` inserted after every element not after it.
pub open spec fn insert_located<T: Located>(s: Seq<T>, x: T) -> Seq<T>
    decreases s.len(),
{
    if s.len() == 0 || !location_lt(x.location(), s.last().location()) {
        s.push(x)
    } else {
        insert_located(s.drop_last(), x).push(s.last())
    }
}

/// `s` stably sorted by location.
pub open spec fn sort_located<T: Located>(s: Seq<T>) -> Seq<T>
    decreases s.len(),
{
    if s.len() == 0 {
        s
    } else {
        insert_located(sort_located(s.drop_last()), s.last())
    }
}

fn located_before<T: Located>(a: &T, b: &T) -> (r: bool)
    ensures
        r == location_lt(a.location(), b.location()),
{
    let fa = a.file_path();
    let fb = b.file_path();
    if less_than(&chars_of(fa.as_str()), &chars_of(fb.as_str())) {
        return true;
    }
    str_eq(fa.as_str(), fb.as_str()) && a.line_number() < b.line_number()
}

proof fn lemma_insert_located_at<T: Located>(s: Seq<T>, x: T, j: int)
    requires
        0 <= j <= s.len(),
        forall|k: int| j <= k < s.len() ==> location_lt(x.location(), #[trigger] s[k].location()),
        j == 0 || !location_lt(x.location(), s[j - 1].location()),
    ensures
        insert_located(s, x) == s.take(j).push(x) + s.skip(j),
    decreases s.len(),
{
    if s.len() == 0 {
        assert(s.take(j).push(x) + s.skip(j) =~= s.push(x));
    } else if !location_lt(x.location(), s.last().location()) {
        assert(j == s.len());
        assert(s.take(j).push(x) + s.skip(j) =~= s.push(x));
    } else {
        let d = s.drop_last();
        lemma_insert_located_at(d, x, j);
        assert((d.take(j).push(x) + d.skip(j)).push(s.last()) =~= s.take(j).push(x) + s.skip(j));
    }
}

fn insert_by_location<T: Located>(v: &mut Vec<T>, x: T)
    ensures
        final(v)@ == insert_located(old(v)@, x),
{
    let mut j: usize = v.len();
    while j > 0 && located_before(&x, &v[j - 1])
        invariant
            j <= v@.len(),
            v@ == old(v)@,
            forall|k: int| j <= k < v@.len() ==> location_lt(x.location(), #[trigger] v@[k].location()),
        decreases j,
    {
        j = j - 1;
    }
    proof { lemma_insert_located_at(v@, x, j as int); }
    v.insert(j, x);
    proof { assert(v@ =~= old(v)@.take(j as int).push(x) + old(v)@.skip(j as int)); }
}

/// `v` in report order: by file, then by line, things at the same place
/// keeping their order.
pub fn sorted_by_location<T: Located>(v: Vec<T>) -> (r: Vec<T>)
    ensures
        r@ == sort_located(v@),
{
    let ghost orig = v@;
    let n = v.len();
    let mut out: Vec<T> = Vec::new();
    let mut rest = v;
    let mut i: usize = 0;
    proof { assert(out@ =~= sort_located(orig.take(0))); }
    while rest.len() > 0
        invariant
            i + rest@.len() == orig.len(),
            n == orig.len(),
            rest@ == orig.skip(i as int),
            out@ == sort_located(orig.take(i as int)),
        decreases rest@.len(),
    {
        let x = rest.remove(0);
        proof {
            assert(rest@ =~= orig.skip(i + 1));
            assert(x == orig[i as int]);
            assert(orig.take(i + 1).drop_last() =~= orig.take(i as int));
        }
        insert_by_location(&mut out, x);
        i = i + 1;
    }
    proof { assert(orig.take(i as int) =~= orig); }
    out
}

} // verus!
