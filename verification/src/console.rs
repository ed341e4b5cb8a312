//! `console.log` / `console.error` / `console.warn`: the line they print.

use vstd::prelude::*;

use crate::coercion::{to_string, spec_to_string};
use crate::text::{chars_of, string_of, extend};
use crate::value::{JsValue, Val, vals};

verus! {

/// `ToString` of each argument, separated by single spaces.
pub open spec fn spec_render_args(args: Seq<Val>) -> Seq<char>
    decreases args.len(),
{
    if args.len() == 0 {
        seq![]
    } else if args.len() == 1 {
        spec_to_string(args[0])
    } else {
        spec_render_args(args.subrange(0, args.len() - 1)) + seq![' '] + spec_to_string(args[args.len() - 1])
    }
}

/// The line a console call prints for `args` (see [`spec_render_args`]).
pub fn render_args(args: &Vec<JsValue>) -> (r: String)
    ensures
        r@ == spec_render_args(vals(args@)),
{
    let mut out: Vec<char> = Vec::new();
    let mut i: usize = 0;
    while i < args.len()
        invariant
            i <= args.len(),
            out@ == spec_render_args(vals(args@).subrange(0, i as int)),
        decreases args.len() - i,
    {
        let ghost pre = vals(args@).subrange(0, i as int);
        let ghost next = vals(args@).subrange(0, i + 1);
        assert(next.subrange(0, next.len() - 1) =~= pre);
        assert(next[next.len() - 1] == args@[i as int]@);
        if i > 0 {
            out.push(' ');
        }
        extend(&mut out, chars_of(to_string(&args[i]).as_str()));
        proof {
            if i == 0 {
                assert(out@ =~= spec_render_args(next));
            } else {
                assert(out@ =~= spec_render_args(next));
            }
        }
        i = i + 1;
    }
    assert(vals(args@).subrange(0, args.len() as int) =~= vals(args@));
    string_of(&out)
}

} // verus!
