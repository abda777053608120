//! Parses the five-line textual description of a finite automaton: states,
//! start state, final states, alphabet, transitions. Every identifier is the
//! first character of its comma-separated field; transitions are separated by
//! semicolons. A missing line or an empty field is a malformed description.

use vstd::prelude::*;
use vstd::string::StrSliceExecFns;
use crate::fa::{FaError, FiniteAutomaton, constructed_from, construction_error};
use crate::text::push_char;

verus! {

/// `s` cut at every occurrence of `sep`; always at least one field.
pub open spec fn split_seq(s: Seq<char>, sep: char) -> Seq<Seq<char>>
    decreases s.len(),
{
    if s.len() == 0 {
        seq![Seq::<char>::empty()]
    } else if s.last() == sep {
        split_seq(s.drop_last(), sep).push(Seq::<char>::empty())
    } else {
        let prev = split_seq(s.drop_last(), sep);
        prev.update(prev.len() - 1, prev.last().push(s.last()))
    }
}

pub proof fn lemma_split_seq_len(s: Seq<char>, sep: char)
    ensures
        split_seq(s, sep).len() >= 1,
    decreases s.len(),
{
    if s.len() > 0 {
        lemma_split_seq_len(s.drop_last(), sep);
    }
}

/// Whether no field is empty.
pub open spec fn all_nonempty(fields: Seq<Seq<char>>) -> bool {
    forall|i: int| 0 <= i < fields.len() ==> (#[trigger] fields[i]).len() > 0
}

/// The first character of each field.
pub open spec fn firsts(fields: Seq<Seq<char>>) -> Seq<char> {
    fields.map_values(|f: Seq<char>| f[0])
}

/// Cuts `s` at every `sep`.
fn split_string(s: &str, sep: char) -> (r: Vec<String>)
    ensures
        r@.map_values(|t: String| t@) == split_seq(s@, sep),
        r@.len() >= 1,
{
    let mut fields: Vec<String> = Vec::new();
    let mut cur = String::new();
    let n = s.unicode_len();
    let mut i: usize = 0;
    proof {
        assert(s@.take(0) =~= Seq::<char>::empty());
        assert(split_seq(s@.take(0), sep) =~= fields@.map_values(|t: String| t@).push(cur@));
    }
    while i < n
        invariant
            i <= n,
            n == s@.len(),
            split_seq(s@.take(i as int), sep) == fields@.map_values(|t: String| t@).push(cur@),
        decreases n - i,
    {
        let ghost fields0 = fields@.map_values(|t: String| t@);
        let ghost cur0 = cur@;
        let c = s.get_char(i);
        proof {
            assert(s@.take(i + 1).drop_last() =~= s@.take(i as int));
            assert(s@.take(i + 1).last() == s@[i as int]);
        }
        if c == sep {
            fields.push(cur);
            cur = String::new();
            proof {
                assert(fields@.map_values(|t: String| t@) =~= fields0.push(cur0));
                assert(split_seq(s@.take(i + 1), sep) =~= fields0.push(cur0).push(cur@));
            }
        } else {
            push_char(&mut cur, c);
            proof {
                let prev = fields0.push(cur0);
                assert(prev.update(prev.len() - 1, prev.last().push(s@[i as int])) =~= fields0.push(
                    cur@,
                ));
            }
        }
        i += 1;
    }
    proof {
        assert(s@.take(n as int) =~= s@);
    }
    fields.push(cur);
    proof {
        lemma_split_seq_len(s@, sep);
    }
    fields
}

/// The first character of each comma-separated field of `s`; a malformed
/// description when a field is empty.
fn split_firsts(s: &str, sep: char) -> (r: Result<Vec<char>, FaError>)
    ensures
        r is Ok <==> all_nonempty(split_seq(s@, sep)),
        match r {
            Ok(cs) => cs@ == firsts(split_seq(s@, sep)),
            Err(e) => e == FaError::MalformedDescription,
        },
{
    let fields = split_string(s, sep);
    let ghost fv = split_seq(s@, sep);
    let mut cs: Vec<char> = Vec::new();
    let mut i: usize = 0;
    while i < fields.len()
        invariant
            i <= fields@.len(),
            fv == split_seq(s@, sep),
            fields@.map_values(|t: String| t@) == fv,
            cs@.len() == i as int,
            forall|j: int| 0 <= j < i as int ==> (#[trigger] fv[j]).len() > 0,
            forall|j: int| 0 <= j < i as int ==> #[trigger] cs@[j] == fv[j][0],
        decreases fields@.len() - i,
    {
        let field: &String = &fields[i];
        proof {
            assert(field@ == fv[i as int]);
        }
        if field.as_str().unicode_len() == 0 {
            proof {
                assert(fv[i as int].len() == 0);
                assert(!all_nonempty(fv));
            }
            return Err(FaError::MalformedDescription);
        }
        let c = field.as_str().get_char(0);
        cs.push(c);
        i += 1;
    }
    proof {
        assert(cs@ =~= firsts(fv));
    }
    Ok(cs)
}

/// Whether a transition field has at least three comma-separated sub-fields,
/// none empty.
pub open spec fn truple_ok(f: Seq<char>) -> bool {
    split_seq(f, ',').len() >= 3 && all_nonempty(split_seq(f, ','))
}

/// The transition a field denotes: the first characters of its first three
/// sub-fields.
pub open spec fn truple_of(f: Seq<char>) -> (char, char, char) {
    let cs = firsts(split_seq(f, ','));
    (cs[0], cs[1], cs[2])
}

/// Reads one `src,dst,label` transition field.
pub fn parse_truple(truple: &str) -> (r: Result<(char, char, char), FaError>)
    ensures
        r is Ok <==> truple_ok(truple@),
        match r {
            Ok(t) => t == truple_of(truple@),
            Err(e) => e == FaError::MalformedDescription,
        },
{
    let cs = match split_firsts(truple, ',') {
        Ok(cs) => cs,
        Err(e) => {
            return Err(e);
        },
    };
    if cs.len() < 3 {
        proof {
            assert(split_seq(truple@, ',').len() == cs@.len());
        }
        return Err(FaError::MalformedDescription);
    }
    let c0 = cs[0];
    let c1 = cs[1];
    let c2 = cs[2];
    Ok((c0, c1, c2))
}

/// Whether all transition fields are well-shaped.
pub open spec fn truples_ok(fs: Seq<Seq<char>>) -> bool {
    forall|i: int| 0 <= i < fs.len() ==> truple_ok(#[trigger] fs[i])
}

/// The transitions that the fifth description line denotes.
pub open spec fn desc_transitions(l4: Seq<char>) -> Seq<(char, char, char)> {
    split_seq(l4, ';').map_values(|f: Seq<char>| truple_of(f))
}

/// Whether the five description lines are well-shaped.
pub open spec fn desc_ok(lines: Seq<Seq<char>>) -> bool {
    &&& lines.len() >= 5
    &&& all_nonempty(split_seq(lines[0], ','))
    &&& lines[1].len() >= 1
    &&& all_nonempty(split_seq(lines[2], ','))
    &&& all_nonempty(split_seq(lines[3], ','))
    &&& truples_ok(split_seq(lines[4], ';'))
}

/// The error that reading this description gives, if any: a malformed shape
/// before a construction error.
pub open spec fn parse_error(lines: Seq<Seq<char>>) -> Option<FaError> {
    if !desc_ok(lines) {
        Some(FaError::MalformedDescription)
    } else {
        construction_error(
            firsts(split_seq(lines[0], ',')),
            lines[1][0],
            firsts(split_seq(lines[2], ',')),
            firsts(split_seq(lines[3], ',')),
            desc_transitions(lines[4]),
        )
    }
}

/// Builds the automaton that the five description lines denote.
pub fn parse_fa(lines: &Vec<String>) -> (r: Result<FiniteAutomaton, FaError>)
    ensures
        r is Ok <==> parse_error(lines@.map_values(|s: String| s@)) is None,
        match r {
            Ok(fa) => {
                let lvs = lines@.map_values(|s: String| s@);
                constructed_from(
                    fa,
                    firsts(split_seq(lvs[0], ',')),
                    lvs[1][0],
                    firsts(split_seq(lvs[2], ',')),
                    firsts(split_seq(lvs[3], ',')),
                    desc_transitions(lvs[4]),
                )
            },
            Err(e) => Some(e) == parse_error(lines@.map_values(|s: String| s@)),
        },
{
    let ghost lvs = lines@.map_values(|s: String| s@);
    proof {
        assert(lvs.len() == lines@.len());
    }
    if lines.len() < 5 {
        return Err(FaError::MalformedDescription);
    }
    proof {
        assert(lvs[0] == lines@[0]@);
        assert(lvs[1] == lines@[1]@);
        assert(lvs[2] == lines@[2]@);
        assert(lvs[3] == lines@[3]@);
        assert(lvs[4] == lines@[4]@);
    }
    let states = match split_firsts(lines[0].as_str(), ',') {
        Ok(cs) => cs,
        Err(e) => {
            return Err(e);
        },
    };
    if lines[1].as_str().unicode_len() == 0 {
        return Err(FaError::MalformedDescription);
    }
    let start_state = lines[1].as_str().get_char(0);
    let final_states = match split_firsts(lines[2].as_str(), ',') {
        Ok(cs) => cs,
        Err(e) => {
            return Err(e);
        },
    };
    let alphabet = match split_firsts(lines[3].as_str(), ',') {
        Ok(cs) => cs,
        Err(e) => {
            return Err(e);
        },
    };
    let truple_fields = split_string(lines[4].as_str(), ';');
    let ghost tfs = split_seq(lvs[4], ';');
    let mut transitions: Vec<(char, char, char)> = Vec::new();
    let mut f: usize = 0;
    while f < truple_fields.len()
        invariant
            f <= truple_fields@.len(),
            lvs == lines@.map_values(|s: String| s@),
            5 <= lvs.len(),
            tfs == split_seq(lvs[4], ';'),
            truple_fields@.map_values(|t: String| t@) == tfs,
            transitions@.len() == f as int,
            forall|j: int| 0 <= j < f as int ==> truple_ok(#[trigger] tfs[j]),
            forall|j: int| 0 <= j < f as int ==> #[trigger] transitions@[j] == truple_of(tfs[j]),
        decreases truple_fields@.len() - f,
    {
        let field: &String = &truple_fields[f];
        proof {
            assert(field@ == tfs[f as int]);
        }
        let t = match parse_truple(field.as_str()) {
            Ok(t) => t,
            Err(e) => {
                proof {
                    assert(!truple_ok(tfs[f as int]));
                    assert(!truples_ok(tfs));
                }
                return Err(e);
            },
        };
        transitions.push(t);
        f += 1;
    }
    proof {
        assert(transitions@ =~= desc_transitions(lvs[4]));
        assert(lvs[0] == lines@[0]@);
    }
    FiniteAutomaton::new(states, start_state, final_states, alphabet, transitions)
}

} // verus!
