//! Paths modeled as sequences of path segments.
//!
//! A path text is split on `/`; empty segments (leading, trailing or doubled
//! separators) are dropped, so the segment sequence is separator-insensitive.

use crate::bytes::find_byte;
use crate::bytes::find_byte_from;
use crate::bytes::lemma_bytes_deep_view;
use crate::bytes::lemma_find_byte;
use crate::bytes::subvec;
use vstd::prelude::*;

verus! {

/// The segments of a path text: split on `/`, empty segments dropped.
pub open spec fn spec_parse_path(s: Seq<u8>) -> Seq<Seq<u8>>
    decreases s.len(),
    via spec_parse_path_dec
{
    if s.len() == 0 {
        Seq::<Seq<u8>>::empty()
    } else {
        let i = find_byte(s, 47);
        if i < 0 {
            seq![s]
        } else {
            let head = s.take(i);
            let rest = spec_parse_path(s.skip(i + 1));
            if head.len() == 0 {
                rest
            } else {
                seq![head] + rest
            }
        }
    }
}

#[via_fn]
proof fn spec_parse_path_dec(s: Seq<u8>) {
    lemma_find_byte(s, 47);
}

/// Splits a path text into its segment sequence.
pub fn parse_path(text: &Vec<u8>) -> (r: Vec<Vec<u8>>)
    ensures
        r.deep_view() == spec_parse_path(text@),
{
    broadcast use lemma_bytes_deep_view;

    let mut r: Vec<Vec<u8>> = Vec::new();
    let mut p: usize = 0;
    proof {
        assert(r.deep_view() =~= Seq::<Seq<u8>>::empty());
        assert(text@.skip(0) =~= text@);
    }
    while p < text.len()
        invariant
            p <= text@.len(),
            spec_parse_path(text@) == r.deep_view() + spec_parse_path(text@.skip(p as int)),
        decreases text@.len() - p,
    {
        let ghost s = text@.skip(p as int);
        let ghost d0 = r.deep_view();
        match find_byte_from(text, p, 47) {
            Some(i) => {
                if i > p {
                    let seg = subvec(text, p, i);
                    r.push(seg);
                    proof {
                        lemma_bytes_deep_view(seg);
                        assert(r.deep_view() =~= d0.push(seg@));
                    }
                }
                proof {
                    let fi = i - p;
                    assert(s.len() > 0);
                    assert(find_byte(s, 47) == fi);
                    let head = s.take(fi);
                    assert(head =~= text@.subrange(p as int, i as int));
                    assert(s.skip(fi + 1) =~= text@.skip(i + 1));
                    let rest = spec_parse_path(text@.skip(i + 1));
                    if fi == 0 {
                        assert(spec_parse_path(s) == rest);
                    } else {
                        assert(spec_parse_path(s) == seq![head] + rest);
                        assert(d0 + (seq![head] + rest) =~= d0.push(head) + rest);
                    }
                }
                p = i + 1;
            },
            None => {
                let seg = subvec(text, p, text.len());
                r.push(seg);
                proof {
                    lemma_bytes_deep_view(seg);
                    assert(r.deep_view() =~= d0.push(seg@));
                    assert(s.len() > 0);
                    assert(find_byte(s, 47) < 0);
                    assert(s =~= text@.subrange(p as int, text@.len() as int));
                    assert(spec_parse_path(s) == seq![s]);
                    assert(d0 + seq![s] =~= d0.push(s));
                    assert(text@.skip(text@.len() as int) =~= Seq::<u8>::empty());
                    assert(spec_parse_path(Seq::<u8>::empty()) =~= Seq::<Seq<u8>>::empty());
                    assert(d0.push(s) + Seq::<Seq<u8>>::empty() =~= d0.push(s));
                }
                p = text.len();
            },
        }
    }
    proof {
        assert(text@.skip(text@.len() as int) =~= Seq::<u8>::empty());
        assert(spec_parse_path(Seq::<u8>::empty()) =~= Seq::<Seq<u8>>::empty());
        assert(r.deep_view() + Seq::<Seq<u8>>::empty() =~= r.deep_view());
    }
    r
}

} // verus!
