use vstd::prelude::*;

verus! {

/// The newline byte that ends a header line.
pub const LINE_END: u8 = 10;

/// What remains of `data` after discarding its first `n` lines: every
/// byte up to and including the `n`-th newline goes, the rest stays
/// verbatim.  Fewer than `n` newlines leave nothing.
pub open spec fn after_lines(data: Seq<u8>, n: nat) -> Seq<u8>
    decreases data.len(),
{
    if n == 0 {
        data
    } else if data.len() == 0 {
        Seq::empty()
    } else if data[0] == LINE_END {
        after_lines(data.drop_first(), (n - 1) as nat)
    } else {
        after_lines(data.drop_first(), n)
    }
}

/// Discards the first `n` lines of a produced script, the fixed-size
/// non-script header a build step prepends, and hands back the rest.
pub fn strip_header_lines(data: &Vec<u8>, n: usize) -> (r: Vec<u8>)
    ensures
        r@ =~= after_lines(data@, n as nat),
{
    let mut i: usize = 0;
    let mut left: usize = n;
    proof {
        assert(data@.skip(0) =~= data@);
    }
    while left > 0 && i < data.len()
        invariant
            0 <= i <= data@.len(),
            left <= n,
            after_lines(data@, n as nat) == after_lines(data@.skip(i as int), left as nat),
        decreases data@.len() - i,
    {
        let ghost pre = data@.skip(i as int);
        if data[i] == LINE_END {
            left = left - 1;
        }
        i = i + 1;
        proof {
            assert(pre[0] == data@[i - 1]);
            assert(pre.drop_first() =~= data@.skip(i as int));
        }
    }
    let mut r: Vec<u8> = Vec::new();
    if left > 0 {
        proof {
            assert(data@.skip(i as int) =~= Seq::<u8>::empty());
        }
        return r;
    }
    let ghost start = i as int;
    while i < data.len()
        invariant
            0 <= start <= i <= data@.len(),
            r@.len() == i - start,
            forall|t: int| 0 <= t < r@.len() ==> #[trigger] r@[t] == data@[start + t],
        decreases data@.len() - i,
    {
        r.push(data[i]);
        i = i + 1;
    }
    proof {
        assert(r@ =~= data@.skip(start));
    }
    r
}

} // verus!
