//! Splitting a byte stream into text lines: newline-separated, a
//! trailing carriage return stripped from each line, and an optional
//! final newline closing the last line rather than opening a new one.

use vstd::prelude::*;

verus! {

/// A line with one trailing carriage return removed.
pub open spec fn strip_cr(l: Seq<u8>) -> Seq<u8> {
    if l.len() > 0 && l[l.len() - 1] == 13 {
        l.drop_last()
    } else {
        l
    }
}

/// The lines of `s`, with `cur` the part of the current line already
/// read.
pub open spec fn lines_rec(s: Seq<u8>, cur: Seq<u8>) -> Seq<Seq<u8>>
    decreases s.len(),
{
    if s.len() == 0 {
        if cur.len() == 0 {
            Seq::empty()
        } else {
            seq![strip_cr(cur)]
        }
    } else if s[0] == 10 {
        seq![strip_cr(cur)].add(lines_rec(s.skip(1), Seq::empty()))
    } else {
        lines_rec(s.skip(1), cur.push(s[0]))
    }
}

/// The lines of a byte stream.
pub open spec fn lines_of(s: Seq<u8>) -> Seq<Seq<u8>> {
    lines_rec(s, Seq::empty())
}

/// Splits a byte stream into its lines.
pub fn split_lines(content: &[u8]) -> (r: Vec<Vec<u8>>)
    ensures
        r.deep_view() == lines_of(content@),
{
    let mut out: Vec<Vec<u8>> = Vec::new();
    let mut cur: Vec<u8> = Vec::new();
    let mut i: usize = 0;
    proof {
        assert(content@.skip(0) =~= content@);
        assert(out.deep_view() + lines_rec(content@, cur@) =~~= lines_rec(content@, cur@));
    }
    while i < content.len()
        invariant
            i <= content@.len(),
            lines_of(content@) == out.deep_view() + lines_rec(content@.skip(i as int), cur@),
        decreases content@.len() - i,
    {
        let b = *vstd::slice::slice_index_get(content, i);
        proof {
            assert(content@.skip(i as int)[0] == content@[i as int]);
            assert(content@.skip(i as int).skip(1) =~= content@.skip(i + 1));
        }
        if b == 10 {
            let ghost cur0 = cur@;
            let ghost out0 = out.deep_view();
            if cur.len() > 0 && cur[cur.len() - 1] == 13 {
                cur.pop();
            }
            proof {
                assert(cur@ =~= strip_cr(cur0));
            }
            out.push(cur);
            cur = Vec::new();
            proof {
                assert(out.deep_view() =~~= out0.push(strip_cr(cur0)));
                assert(out.deep_view() + lines_rec(content@.skip(i + 1), cur@) =~~= out0
                    + lines_rec(content@.skip(i as int), cur0));
            }
        } else {
            cur.push(b);
        }
        i += 1;
    }
    proof {
        assert(content@.skip(content@.len() as int) =~= Seq::<u8>::empty());
    }
    if cur.len() > 0 {
        let ghost cur0 = cur@;
        let ghost out0 = out.deep_view();
        if cur[cur.len() - 1] == 13 {
            cur.pop();
        }
        proof {
            assert(cur@ =~= strip_cr(cur0));
        }
        out.push(cur);
        proof {
            assert(out.deep_view() =~~= out0.push(strip_cr(cur0)));
            assert(out.deep_view() =~~= out0 + lines_rec(Seq::<u8>::empty(), cur0));
        }
    } else {
        proof {
            assert(out.deep_view() =~~= out.deep_view() + lines_rec(
                Seq::<u8>::empty(),
                Seq::<u8>::empty(),
            ));
        }
    }
    out
}

} // verus!
