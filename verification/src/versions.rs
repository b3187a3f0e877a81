//! Dotted version numbers read as sequences of numeric parts.
use vstd::prelude::*;
use crate::text::{chars_of, parse_u32, parse_u32_exec, split_text_exec, split_text_from, views};

verus! {

/// The numbers among the pieces, in order; pieces that do not read as a `u32`
/// are left out.
pub open spec fn parsed_parts(pieces: Seq<Seq<char>>) -> Seq<u32>
    decreases pieces.len(),
{
    if pieces.len() == 0 {
        Seq::empty()
    } else {
        parsed_parts(pieces.drop_last()) + match parse_u32(pieces.last()) {
            Some(v) => seq![v],
            None => Seq::<u32>::empty(),
        }
    }
}

/// The numeric parts of a dotted version number.
pub open spec fn version_parts(s: Seq<char>) -> Seq<u32> {
    parsed_parts(split_text_from(s, seq!['.'], 0))
}

/// The part at `i`, 0 past the end.
pub open spec fn part_at(p: Seq<u32>, i: int) -> u32 {
    if 0 <= i < p.len() {
        p[i]
    } else {
        0
    }
}

pub fn part_at_exec(p: &Vec<u32>, i: usize) -> (r: u32)
    ensures
        r == part_at(p@, i as int),
{
    if i < p.len() {
        p[i]
    } else {
        0
    }
}

pub fn version_parts_exec(s: &str) -> (r: Vec<u32>)
    ensures
        r@ == version_parts(s@),
{
    let chars = chars_of(s);
    let mut sep: Vec<char> = Vec::new();
    sep.push('.');
    proof {
        assert(sep@ =~= seq!['.']);
    }
    let pieces = split_text_exec(&chars, &sep);
    let ghost pv = views(pieces@);
    let mut r: Vec<u32> = Vec::new();
    let mut k: usize = 0;
    while k < pieces.len()
        invariant
            k <= pieces.len(),
            pv == views(pieces@),
            r@ == parsed_parts(pv.take(k as int)),
        decreases pieces.len() - k,
    {
        proof {
            assert(pv.take(k + 1).drop_last() =~= pv.take(k as int));
            assert(pv.take(k + 1).last() == pieces@[k as int]@);
        }
        match parse_u32_exec(&pieces[k]) {
            Some(v) => {
                r.push(v);
            },
            None => {},
        }
        proof {
            assert(r@ =~= parsed_parts(pv.take(k + 1)));
        }
        k = k + 1;
    }
    proof {
        assert(pv.take(pv.len() as int) =~= pv);
    }
    r
}

} // verus!
