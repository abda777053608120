//! The token catalogue: one reserved lexeme per line, its code the zero-based
//! index of the first line that holds it.

use vstd::prelude::*;
use crate::hash_table::first_slot;

verus! {

#[derive(Debug)]
pub struct TokenManager {
    tokens: Vec<String>,
}

/// The code of lexeme `t` in catalogue `cat`: the first index holding `t`.
pub open spec fn spec_code_of(cat: Seq<Seq<char>>, t: Seq<char>) -> Option<int> {
    if first_slot(cat, t) < cat.len() {
        Some(first_slot(cat, t))
    } else {
        None
    }
}

impl TokenManager {
    /// The catalogue lines, in order.
    pub closed spec fn catalogue(&self) -> Seq<Seq<char>> {
        self.tokens@.map_values(|s: String| s@)
    }

    /// Codes are handed out as `isize`, so the catalogue must not outgrow it.
    pub closed spec fn well_formed(&self) -> bool {
        self.tokens@.len() <= isize::MAX as int
    }

    pub fn new(lines: Vec<String>) -> (r: Self)
        requires
            lines@.len() <= isize::MAX as int,
        ensures
            r.catalogue() == lines@.map_values(|s: String| s@),
            r.well_formed(),
    {
        Self { tokens: lines }
    }

    pub fn get_token_code(&self, token: &str) -> (r: Option<isize>)
        requires
            self.well_formed(),
        ensures
            match r {
                Some(code) => Some(code as int) == spec_code_of(self.catalogue(), token@) && code
                    >= 0,
                None => spec_code_of(self.catalogue(), token@) is None,
            },
            r is Some <==> spec_code_of(self.catalogue(), token@) is Some,
    {
        let key = String::from_str(token);
        let ghost cat = self.catalogue();
        proof {
            crate::hash_table::lemma_first_slot(cat, token@);
        }
        let mut i: usize = 0;
        while i < self.tokens.len()
            invariant
                i <= self.tokens@.len(),
                self.well_formed(),
                key@ == token@,
                cat == self.catalogue(),
                forall|j: int| 0 <= j < i as int ==> cat[j] != token@,
            decreases self.tokens@.len() - i,
        {
            if self.tokens[i].eq(&key) {
                proof {
                    assert(cat[i as int] == token@);
                    crate::hash_table::lemma_first_slot(cat, token@);
                }
                return Some(i as isize);
            }
            i += 1;
        }
        proof {
            crate::hash_table::lemma_first_slot(cat, token@);
        }
        None
    }
}

} // verus!
