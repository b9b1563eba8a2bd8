//! The attention that token ids ask for.

use crate::token_id::TokenID;
use crate::tokenizer::AlephAlphaTokenizer;
use vstd::prelude::*;
use vstd::std_specs::cmp::PartialEqSpec;

verus! {

/// The attention that a token id asks for: none for zero, one for any
/// other.
pub open spec fn attention_of<T: TokenID, U: TokenID>(token_id: T) -> U {
    if token_id == T::zero_value() {
        U::zero_value()
    } else {
        U::coerced(1)
    }
}

impl AlephAlphaTokenizer {
    fn attention_at<T: TokenID, U: TokenID>(token_id: &T) -> (r: U)
        ensures
            r == attention_of::<T, U>(*token_id),
    {
        let zero = T::zero();
        proof {
            T::eq_is_sameness(*token_id, zero);
        }
        if *token_id == zero {
            U::zero()
        } else {
            U::coerce(1)
        }
    }

    /// Calculates the required attention for this token.
    #[inline]
    pub fn attention<T: TokenID, U: TokenID>(token_id: T) -> (r: U)
        ensures
            r == attention_of::<T, U>(token_id),
    {
        Self::attention_at(&token_id)
    }

    /// Given a slice of `[u64]`s, appends the attentions to the given `Vec`.
    pub fn attentions_into<T: TokenID, U: TokenID>(token_ids: &[T], attns: &mut Vec<U>)
        ensures
            final(attns)@ == Seq::new(
                token_ids@.len(),
                |i: int| attention_of::<T, U>(token_ids@[i]),
            ),
    {
        attns.clear();
        let mut i: usize = 0;
        while i < token_ids.len()
            invariant
                i <= token_ids@.len(),
                attns@ == Seq::new(i as nat, |j: int| attention_of::<T, U>(token_ids@[j])),
            decreases token_ids@.len() - i,
        {
            attns.push(Self::attention_at(&token_ids[i]));
            proof {
                assert(attns@ =~= Seq::new(
                    (i + 1) as nat,
                    |j: int| attention_of::<T, U>(token_ids@[j]),
                ));
            }
            i = i + 1;
        }
    }
}

} // verus!
