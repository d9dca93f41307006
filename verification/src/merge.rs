//! Joining documents: the contents of several files become one buffer, each
//! part separated from the next by a blank line, with no trailing
//! separator.

use vstd::prelude::*;
use crate::text::{append_all, views};

verus! {

/// The parts joined in order, a blank line (`\n\n`) between neighbours.
pub open spec fn merged(parts: Seq<Seq<char>>) -> Seq<char>
    decreases parts.len(),
{
    if parts.len() == 0 {
        Seq::empty()
    } else if parts.len() == 1 {
        parts[0]
    } else {
        parts[0] + seq!['\n', '\n'] + merged(parts.skip(1))
    }
}

/// Joins the given document contents into one buffer.
pub fn merge_contents(parts: &Vec<Vec<char>>) -> (r: Vec<char>)
    ensures
        r@ == merged(views(parts@)),
{
    let n = parts.len();
    let mut out: Vec<char> = Vec::new();
    let mut i: usize = 0;
    proof {
        assert(views(parts@).skip(0) =~= views(parts@));
    }
    while i < n
        invariant
            i <= n,
            n == parts@.len(),
            merged(views(parts@)) == out@ + merged(views(parts@).skip(i as int)),
        decreases n - i,
    {
        let ghost ps = views(parts@).skip(i as int);
        let ghost pre = out@;
        proof {
            assert(ps[0] == parts@[i as int]@);
            assert(ps.skip(1) =~= views(parts@).skip(i + 1));
        }
        append_all(&mut out, &parts[i]);
        if i + 1 < n {
            out.push('\n');
            out.push('\n');
            proof {
                assert(ps.len() >= 2);
                assert(merged(ps) == ps[0] + seq!['\n', '\n'] + merged(
                    views(parts@).skip(i + 1),
                ));
                assert(pre + (ps[0] + seq!['\n', '\n'] + merged(views(parts@).skip(i + 1))) =~= out@
                    + merged(views(parts@).skip(i + 1)));
            }
        } else {
            proof {
                assert(ps.len() == 1);
                assert(merged(ps) == ps[0]);
                assert(views(parts@).skip(i + 1).len() == 0);
                assert(merged(views(parts@).skip(i + 1)) == Seq::<char>::empty());
                assert(pre + ps[0] =~= out@ + Seq::<char>::empty());
            }
        }
        i += 1;
    }
    proof {
        assert(merged(views(parts@).skip(n as int)) == Seq::<char>::empty());
        assert(out@ + Seq::<char>::empty() =~= out@);
    }
    out
}

} // verus!
