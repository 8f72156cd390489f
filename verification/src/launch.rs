//! Launch-command sanitization: the compute half of launching. The raw
//! command line is split on whitespace, tokens beginning with `%` (field-code
//! placeholders) are discarded, and the survivors are rejoined with single
//! spaces. Handing the result to a shell and spawning the process is outside
//! work and stays with the surrounding application, fire-and-forget.
//!
//! Tokens are not quote-protected: an argument containing spaces is not
//! reconstructed as one argument. That mirrors the stated contract and is a
//! documented limitation, not a defect.

use vstd::prelude::*;

use crate::bytes::{filter_nonempty, join_seq, join_with, nonempty_parts, split_on, split_seq};

verus! {

/// ASCII whitespace, the token separators of a command line.
pub open spec fn is_space(b: u8) -> bool {
    b == 32 || b == 9 || b == 10 || b == 11 || b == 12 || b == 13
}

/// The command with every whitespace byte turned into a plain space.
pub open spec fn norm_spaces(s: Seq<u8>) -> Seq<u8> {
    s.map_values(|b: u8| if is_space(b) { 32u8 } else { b })
}

/// The whitespace-delimited tokens of a command line.
pub open spec fn tokens_of(s: Seq<u8>) -> Seq<Seq<u8>> {
    nonempty_parts(split_seq(norm_spaces(s), 32))
}

/// The tokens that survive sanitization: those not beginning with `%`.
pub open spec fn kept_tokens(toks: Seq<Seq<u8>>) -> Seq<Seq<u8>>
    decreases toks.len(),
{
    if toks.len() == 0 {
        Seq::empty()
    } else {
        kept_tokens(toks.drop_last()) + if toks.last().len() > 0 && toks.last()[0] == 37 {
            Seq::<Seq<u8>>::empty()
        } else {
            seq![toks.last()]
        }
    }
}

/// The sanitized command line: surviving tokens joined by single spaces.
pub open spec fn sanitized(s: Seq<u8>) -> Seq<u8> {
    join_seq(kept_tokens(tokens_of(s)), 32)
}

/// Drop the tokens that begin with `%`.
fn drop_placeholders(toks: &Vec<Vec<u8>>) -> (r: Vec<Vec<u8>>)
    ensures
        r.deep_view() == kept_tokens(toks.deep_view()),
{
    let ghost all = toks.deep_view();
    let mut out: Vec<Vec<u8>> = Vec::new();
    let mut i: usize = 0;
    proof {
        assert(all.take(0).len() == 0);
        assert(out.deep_view() =~~= kept_tokens(all.take(0)));
    }
    while i < toks.len()
        invariant
            i <= toks.len(),
            all == toks.deep_view(),
            out.deep_view() == kept_tokens(all.take(i as int)),
        decreases toks.len() - i,
    {
        let ghost old_out = out.deep_view();
        proof {
            assert(all.take(i as int + 1).drop_last() =~= all.take(i as int));
            assert(all.take(i as int + 1).last() == all[i as int]);
        }
        let t = &toks[i];
        if !(t.len() > 0 && t[0] == 37) {
            let p = t.clone();
            proof {
                assert(p@ =~= toks@[i as int]@);
                assert(p@ == all[i as int]);
            }
            out.push(p);
            assert(out.deep_view() =~~= old_out.push(all[i as int]));
        }
        assert(out.deep_view() =~~= kept_tokens(all.take(i as int + 1)));
        i = i + 1;
    }
    proof {
        assert(all.take(i as int) =~~= all);
    }
    out
}

/// Sanitize a raw launch command: split on whitespace, discard field-code
/// placeholder tokens, rejoin with single spaces.
pub fn sanitize_command(cmd: &Vec<u8>) -> (r: Vec<u8>)
    ensures
        r@ == sanitized(cmd@),
{
    let mut norm: Vec<u8> = Vec::new();
    let mut i: usize = 0;
    while i < cmd.len()
        invariant
            i <= cmd.len(),
            norm@.len() == i,
            forall|j: int| 0 <= j < i ==> norm@[j] == norm_spaces(cmd@)[j],
        decreases cmd.len() - i,
    {
        let b = cmd[i];
        let nb = if b == 32 || b == 9 || b == 10 || b == 11 || b == 12 || b == 13 {
            32
        } else {
            b
        };
        norm.push(nb);
        i = i + 1;
    }
    assert(norm@ =~= norm_spaces(cmd@));
    let parts = split_on(&norm, 32);
    let toks = filter_nonempty(&parts);
    let kept = drop_placeholders(&toks);
    join_with(&kept, 32)
}

} // verus!
