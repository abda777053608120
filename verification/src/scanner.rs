//! The classifier and driver: tokenizes each source line, looks each lexeme up
//! in the token catalogue, and otherwise classifies it through the integer
//! DFA, the string-literal rule and the identifier DFA, filling the PIF and
//! the symbol table. The first unclassifiable lexeme aborts the scan with the
//! 1-based line number.

use vstd::prelude::*;
use vstd::string::StringExecFns;
use crate::fa::{FiniteAutomaton, NotDFAError};
use crate::hash_table::{added, lemma_added_preserves_find};
use crate::pif::{PIF, PIFEntry};
use crate::symbol_table::{SymbolTable, SymbolTablePosition, SymbolTableType};
use crate::text::{int_literal_value, is_i32_literal, is_string_literal, is_string_constant,
    parse_i32};
use crate::token_manager::{TokenManager, spec_code_of};
use crate::tokenizer::{extract_tokens_from_line, spec_tokenize};

verus! {

/// A lexical error: the 1-based number of the line holding the first lexeme
/// that no rule classifies.
#[derive(Debug, Clone, Copy, PartialEq, Eq, Structural)]
pub struct LexicalError {
    pub line: i32,
}

/// The report a lexical error prints: it names the offending line.
pub open spec fn lexical_error_message(line: int) -> Seq<char> {
    "Lexical error on line "@ + crate::text::decimal_rep(line) + "!"@
}

impl LexicalError {
    pub fn message(&self) -> (s: String)
        requires
            self.line >= 1,
        ensures
            s@ == lexical_error_message(self.line as int),
    {
        let mut s = String::from_str("Lexical error on line ");
        let digits = crate::text::render_decimal(self.line);
        s.append(digits.as_str());
        s.append("!");
        s
    }
}

/// The `i32` value of an integer-literal lexeme.
pub open spec fn int_value_i32(t: Seq<char>) -> i32 {
    int_literal_value(t) as i32
}

/// Whether a lexeme outside the catalogue is classifiable: the integer DFA
/// must answer deterministically; if it accepts, the lexeme must be an `i32`
/// literal; otherwise the string-literal rule or the identifier DFA must
/// accept.
pub open spec fn symbol_token_ok(
    t: Seq<char>,
    int_fa: FiniteAutomaton,
    id_fa: FiniteAutomaton,
) -> bool {
    if int_fa.spec_accepts(t) is Err {
        false
    } else if int_fa.spec_accepts(t) == Ok::<bool, NotDFAError>(true) {
        is_i32_literal(t)
    } else if is_string_literal(t) {
        true
    } else {
        id_fa.spec_accepts(t) == Ok::<bool, NotDFAError>(true)
    }
}

/// The PIF entry written for a lexeme outside the catalogue, judged against a
/// symbol table state: the sentinel code and the position of the lexeme in the
/// sub-table its classification picks.
pub open spec fn symbol_entry_matches(
    e: PIFEntry,
    t: Seq<char>,
    int_fa: FiniteAutomaton,
    id_fa: FiniteAutomaton,
    st: SymbolTable,
) -> bool {
    &&& e.token == -1
    &&& match e.st_pos {
        Some(p) => {
            if int_fa.spec_accepts(t) == Ok::<bool, NotDFAError>(true) {
                p.tp == SymbolTableType::INT && st.ints().find_pos(int_value_i32(t)) == Some(
                    (p.bucket as int, p.item as int),
                )
            } else if is_string_literal(t) {
                p.tp == SymbolTableType::STRING && st.strs().find_pos(t) == Some(
                    (p.bucket as int, p.item as int),
                )
            } else {
                p.tp == SymbolTableType::ID && st.ids().find_pos(t) == Some(
                    (p.bucket as int, p.item as int),
                )
            }
        },
        None => false,
    }
}

/// How the symbol table advances for one lexeme outside the catalogue: the
/// sub-table its classification picks performs find-or-insert at position `p`,
/// the other two stand still.
pub open spec fn st_step(
    st0: SymbolTable,
    st1: SymbolTable,
    t: Seq<char>,
    int_fa: FiniteAutomaton,
    id_fa: FiniteAutomaton,
    p: (usize, usize),
) -> bool {
    if int_fa.spec_accepts(t) == Ok::<bool, NotDFAError>(true) {
        &&& added(st0.ints(), st1.ints(), int_value_i32(t), p)
        &&& st1.ids() == st0.ids()
        &&& st1.strs() == st0.strs()
    } else if is_string_literal(t) {
        &&& added(st0.strs(), st1.strs(), t, p)
        &&& st1.ids() == st0.ids()
        &&& st1.ints() == st0.ints()
    } else {
        &&& added(st0.ids(), st1.ids(), t, p)
        &&& st1.ints() == st0.ints()
        &&& st1.strs() == st0.strs()
    }
}

pub fn add_id_or_constant_to_pif(
    pif: &mut PIF,
    token: &str,
    symbol_table: &mut SymbolTable,
    line_num: i32,
    int_const_fa: &FiniteAutomaton,
    id_fa: &FiniteAutomaton,
) -> (r: Result<(), LexicalError>)
    requires
        old(pif).well_formed(),
        old(symbol_table).well_formed(),
        int_const_fa.well_formed(),
        id_fa.well_formed(),
    ensures
        final(pif).well_formed(),
        final(symbol_table).well_formed(),
        r is Ok <==> symbol_token_ok(token@, *int_const_fa, *id_fa),
        match r {
            Ok(()) => {
                &&& final(pif).entries().len() == old(pif).entries().len() + 1
                &&& final(pif).entries().drop_last() == old(pif).entries()
                &&& symbol_entry_matches(
                    final(pif).entries().last(),
                    token@,
                    *int_const_fa,
                    *id_fa,
                    *final(symbol_table),
                )
                &&& match final(pif).entries().last().st_pos {
                    Some(p) => st_step(
                        *old(symbol_table),
                        *final(symbol_table),
                        token@,
                        *int_const_fa,
                        *id_fa,
                        (p.bucket, p.item),
                    ),
                    None => false,
                }
            },
            Err(e) => {
                &&& *final(pif) == *old(pif)
                &&& *final(symbol_table) == *old(symbol_table)
                &&& e.line == line_num
            },
        },
{
    let accepted = match int_const_fa.check_match(token) {
        Ok(b) => b,
        Err(_) => {
            return Err(LexicalError { line: line_num });
        },
    };
    let entry_pos: SymbolTablePosition;
    if accepted {
        let value = match parse_i32(token) {
            Some(v) => v,
            None => {
                return Err(LexicalError { line: line_num });
            },
        };
        let pos = symbol_table.add_int_const(value);
        entry_pos = SymbolTablePosition { tp: SymbolTableType::INT, bucket: pos.0, item: pos.1 };
    } else if is_string_constant(token) {
        let owned = String::from_str(token);
        let pos = symbol_table.add_string_const(owned);
        entry_pos = SymbolTablePosition { tp: SymbolTableType::STRING, bucket: pos.0, item: pos.1 };
    } else {
        let id_accepted = match id_fa.check_match(token) {
            Ok(b) => b,
            Err(_) => {
                return Err(LexicalError { line: line_num });
            },
        };
        if !id_accepted {
            return Err(LexicalError { line: line_num });
        }
        let owned = String::from_str(token);
        let pos = symbol_table.add_id(owned);
        entry_pos = SymbolTablePosition { tp: SymbolTableType::ID, bucket: pos.0, item: pos.1 };
    }
    let ghost entries0 = pif.entries();
    pif.add(PIFEntry { token: -1, st_pos: Some(entry_pos) });
    proof {
        assert(pif.entries().drop_last() =~= entries0);
    }
    Ok(())
}

/// The views of a vector of source lines.
pub open spec fn line_views(lines: Seq<String>) -> Seq<Seq<char>> {
    lines.map_values(|s: String| s@)
}

/// All lexemes of the source, line by line, left to right.
pub open spec fn all_tokens(lines: Seq<Seq<char>>) -> Seq<Seq<char>>
    decreases lines.len(),
{
    if lines.len() == 0 {
        Seq::empty()
    } else {
        spec_tokenize(lines[0]) + all_tokens(lines.drop_first())
    }
}

pub proof fn lemma_all_tokens_snoc(lines: Seq<Seq<char>>, l: Seq<char>)
    ensures
        all_tokens(lines.push(l)) == all_tokens(lines) + spec_tokenize(l),
    decreases lines.len(),
{
    if lines.len() == 0 {
        assert(lines.push(l).drop_first() =~= lines);
        assert(lines.push(l)[0] == l);
        assert(all_tokens(lines) =~= Seq::<Seq<char>>::empty());
        assert(all_tokens(lines.push(l)) == spec_tokenize(l) + all_tokens(lines));
        assert(spec_tokenize(l) + all_tokens(lines) =~= all_tokens(lines) + spec_tokenize(l));
    } else {
        assert(lines.push(l).drop_first() =~= lines.drop_first().push(l));
        assert(lines.push(l)[0] == lines[0]);
        lemma_all_tokens_snoc(lines.drop_first(), l);
        assert(spec_tokenize(lines[0]) + (all_tokens(lines.drop_first()) + spec_tokenize(l)) =~= (
        spec_tokenize(lines[0]) + all_tokens(lines.drop_first())) + spec_tokenize(l));
    }
}

/// Whether a lexeme is classifiable at all: by the catalogue first, then by
/// the symbol rules.
pub open spec fn token_ok(
    t: Seq<char>,
    cat: Seq<Seq<char>>,
    int_fa: FiniteAutomaton,
    id_fa: FiniteAutomaton,
) -> bool {
    if spec_code_of(cat, t) is Some {
        true
    } else {
        symbol_token_ok(t, int_fa, id_fa)
    }
}

/// The PIF entry a lexeme must produce, judged against a symbol table state.
pub open spec fn entry_matches(
    e: PIFEntry,
    t: Seq<char>,
    cat: Seq<Seq<char>>,
    int_fa: FiniteAutomaton,
    id_fa: FiniteAutomaton,
    st: SymbolTable,
) -> bool {
    match spec_code_of(cat, t) {
        Some(code) => e.token as int == code && e.st_pos is None,
        None => symbol_entry_matches(e, t, int_fa, id_fa, st),
    }
}

/// Whether every lexeme of one line is classifiable.
pub open spec fn line_all_ok(
    line: Seq<char>,
    cat: Seq<Seq<char>>,
    int_fa: FiniteAutomaton,
    id_fa: FiniteAutomaton,
) -> bool {
    forall|j: int|
        0 <= j < spec_tokenize(line).len() ==> token_ok(
            #[trigger] spec_tokenize(line)[j],
            cat,
            int_fa,
            id_fa,
        )
}

/// The 1-based number of the first line holding an unclassifiable lexeme;
/// one past the last line when every lexeme is classifiable.
pub open spec fn first_error_line(
    lines: Seq<Seq<char>>,
    cat: Seq<Seq<char>>,
    int_fa: FiniteAutomaton,
    id_fa: FiniteAutomaton,
) -> int
    decreases lines.len(),
{
    if lines.len() == 0 {
        1
    } else if !line_all_ok(lines[0], cat, int_fa, id_fa) {
        1
    } else {
        1 + first_error_line(lines.drop_first(), cat, int_fa, id_fa)
    }
}

pub proof fn lemma_error_line_skip(
    lines: Seq<Seq<char>>,
    cat: Seq<Seq<char>>,
    int_fa: FiniteAutomaton,
    id_fa: FiniteAutomaton,
    k: int,
)
    requires
        0 <= k <= lines.len(),
        forall|l: int| 0 <= l < k ==> line_all_ok(#[trigger] lines[l], cat, int_fa, id_fa),
    ensures
        first_error_line(lines, cat, int_fa, id_fa) == k + first_error_line(
            lines.skip(k),
            cat,
            int_fa,
            id_fa,
        ),
    decreases k,
{
    if k == 0 {
        assert(lines.skip(0) =~= lines);
    } else {
        assert(line_all_ok(lines[0], cat, int_fa, id_fa));
        assert(forall|l: int|
            0 <= l < k - 1 ==> lines.drop_first()[l] == #[trigger] lines[l + 1]);
        lemma_error_line_skip(lines.drop_first(), cat, int_fa, id_fa, k - 1);
        assert(lines.drop_first().skip(k - 1) =~= lines.skip(k));
    }
}

/// Whether the classifier sends `t` to the identifier sub-table.
pub open spec fn classified_id(
    t: Seq<char>,
    cat: Seq<Seq<char>>,
    int_fa: FiniteAutomaton,
    id_fa: FiniteAutomaton,
) -> bool {
    &&& spec_code_of(cat, t) is None
    &&& !(int_fa.spec_accepts(t) == Ok::<bool, NotDFAError>(true))
    &&& !is_string_literal(t)
}

/// Whether the classifier sends `t` to the integer sub-table.
pub open spec fn classified_int(
    t: Seq<char>,
    cat: Seq<Seq<char>>,
    int_fa: FiniteAutomaton,
) -> bool {
    &&& spec_code_of(cat, t) is None
    &&& int_fa.spec_accepts(t) == Ok::<bool, NotDFAError>(true)
}

/// Whether the classifier sends `t` to the string sub-table.
pub open spec fn classified_str(
    t: Seq<char>,
    cat: Seq<Seq<char>>,
    int_fa: FiniteAutomaton,
) -> bool {
    &&& spec_code_of(cat, t) is None
    &&& !(int_fa.spec_accepts(t) == Ok::<bool, NotDFAError>(true))
    &&& is_string_literal(t)
}

/// Whether some lexeme among `toks` is the identifier `v`.
pub open spec fn appears_as_id(
    toks: Seq<Seq<char>>,
    v: Seq<char>,
    cat: Seq<Seq<char>>,
    int_fa: FiniteAutomaton,
    id_fa: FiniteAutomaton,
) -> bool {
    exists|i: int|
        0 <= i < toks.len() && #[trigger] toks[i] == v && classified_id(toks[i], cat, int_fa, id_fa)
}

/// Whether some lexeme among `toks` is an integer constant of value `w`.
pub open spec fn appears_as_int(
    toks: Seq<Seq<char>>,
    w: i32,
    cat: Seq<Seq<char>>,
    int_fa: FiniteAutomaton,
) -> bool {
    exists|i: int|
        0 <= i < toks.len() && int_value_i32(#[trigger] toks[i]) == w && classified_int(
            toks[i],
            cat,
            int_fa,
        )
}

/// Whether some lexeme among `toks` is the string constant `v`.
pub open spec fn appears_as_str(
    toks: Seq<Seq<char>>,
    v: Seq<char>,
    cat: Seq<Seq<char>>,
    int_fa: FiniteAutomaton,
) -> bool {
    exists|i: int|
        0 <= i < toks.len() && #[trigger] toks[i] == v && classified_str(toks[i], cat, int_fa)
}

/// Every stored symbol comes from some scanned lexeme of the matching class:
/// the scan puts nothing else into the symbol table.
pub open spec fn st_covered(
    st: SymbolTable,
    toks: Seq<Seq<char>>,
    cat: Seq<Seq<char>>,
    int_fa: FiniteAutomaton,
    id_fa: FiniteAutomaton,
) -> bool {
    &&& forall|b: int, s: int|
        0 <= b < st.ids().buckets().len() && 0 <= s < st.ids().buckets()[b].len()
            ==> appears_as_id(toks, #[trigger] st.ids().buckets()[b][s], cat, int_fa, id_fa)
    &&& forall|b: int, s: int|
        0 <= b < st.ints().buckets().len() && 0 <= s < st.ints().buckets()[b].len()
            ==> appears_as_int(toks, #[trigger] st.ints().buckets()[b][s], cat, int_fa)
    &&& forall|b: int, s: int|
        0 <= b < st.strs().buckets().len() && 0 <= s < st.strs().buckets()[b].len()
            ==> appears_as_str(toks, #[trigger] st.strs().buckets()[b][s], cat, int_fa)
}

/// One classifier step keeps the symbol table covered by the lexemes seen so
/// far.
proof fn lemma_covered_step(
    st0: SymbolTable,
    st1: SymbolTable,
    done0: Seq<Seq<char>>,
    t: Seq<char>,
    cat: Seq<Seq<char>>,
    int_fa: FiniteAutomaton,
    id_fa: FiniteAutomaton,
    p: (usize, usize),
)
    requires
        st0.well_formed(),
        st_covered(st0, done0, cat, int_fa, id_fa),
        if spec_code_of(cat, t) is Some {
            st1 == st0
        } else {
            st_step(st0, st1, t, int_fa, id_fa, p)
        },
    ensures
        st_covered(st1, done0.push(t), cat, int_fa, id_fa),
{
    let done1 = done0.push(t);
    assert forall|b: int, s: int|
        0 <= b < st1.ids().buckets().len() && 0 <= s < st1.ids().buckets()[b].len()
        implies appears_as_id(done1, #[trigger] st1.ids().buckets()[b][s], cat, int_fa, id_fa) by {
        let v = st1.ids().buckets()[b][s];
        if st1.ids() == st0.ids() {
            assert(appears_as_id(done0, st0.ids().buckets()[b][s], cat, int_fa, id_fa));
            let i0 = choose|i: int|
                0 <= i < done0.len() && #[trigger] done0[i] == v && classified_id(
                    done0[i],
                    cat,
                    int_fa,
                    id_fa,
                );
            assert(done1[i0] == done0[i0]);
        } else {
            let bk = st0.ids().bucket_of(t);
            if b == bk && s == st0.ids().buckets()[bk].len() {
                assert(v == t);
                assert(done1[done0.len() as int] == t);
            } else {
                assert(st1.ids().buckets()[b][s] == st0.ids().buckets()[b][s]);
                assert(appears_as_id(done0, st0.ids().buckets()[b][s], cat, int_fa, id_fa));
                let i0 = choose|i: int|
                    0 <= i < done0.len() && #[trigger] done0[i] == v && classified_id(
                        done0[i],
                        cat,
                        int_fa,
                        id_fa,
                    );
                assert(done1[i0] == done0[i0]);
            }
        }
    }
    assert forall|b: int, s: int|
        0 <= b < st1.ints().buckets().len() && 0 <= s < st1.ints().buckets()[b].len()
        implies appears_as_int(done1, #[trigger] st1.ints().buckets()[b][s], cat, int_fa) by {
        let w = st1.ints().buckets()[b][s];
        if st1.ints() == st0.ints() {
            assert(appears_as_int(done0, st0.ints().buckets()[b][s], cat, int_fa));
            let i0 = choose|i: int|
                0 <= i < done0.len() && int_value_i32(#[trigger] done0[i]) == w && classified_int(
                    done0[i],
                    cat,
                    int_fa,
                );
            assert(done1[i0] == done0[i0]);
        } else {
            let bk = st0.ints().bucket_of(int_value_i32(t));
            if b == bk && s == st0.ints().buckets()[bk].len() {
                assert(w == int_value_i32(t));
                assert(done1[done0.len() as int] == t);
            } else {
                assert(st1.ints().buckets()[b][s] == st0.ints().buckets()[b][s]);
                assert(appears_as_int(done0, st0.ints().buckets()[b][s], cat, int_fa));
                let i0 = choose|i: int|
                    0 <= i < done0.len() && int_value_i32(#[trigger] done0[i]) == w
                        && classified_int(done0[i], cat, int_fa);
                assert(done1[i0] == done0[i0]);
            }
        }
    }
    assert forall|b: int, s: int|
        0 <= b < st1.strs().buckets().len() && 0 <= s < st1.strs().buckets()[b].len()
        implies appears_as_str(done1, #[trigger] st1.strs().buckets()[b][s], cat, int_fa) by {
        let v = st1.strs().buckets()[b][s];
        if st1.strs() == st0.strs() {
            assert(appears_as_str(done0, st0.strs().buckets()[b][s], cat, int_fa));
            let i0 = choose|i: int|
                0 <= i < done0.len() && #[trigger] done0[i] == v && classified_str(
                    done0[i],
                    cat,
                    int_fa,
                );
            assert(done1[i0] == done0[i0]);
        } else {
            let bk = st0.strs().bucket_of(t);
            if b == bk && s == st0.strs().buckets()[bk].len() {
                assert(v == t);
                assert(done1[done0.len() as int] == t);
            } else {
                assert(st1.strs().buckets()[b][s] == st0.strs().buckets()[b][s]);
                assert(appears_as_str(done0, st0.strs().buckets()[b][s], cat, int_fa));
                let i0 = choose|i: int|
                    0 <= i < done0.len() && #[trigger] done0[i] == v && classified_str(
                        done0[i],
                        cat,
                        int_fa,
                    );
                assert(done1[i0] == done0[i0]);
            }
        }
    }
}

/// What a successful scan guarantees: the symbol table is sound, there is one
/// PIF entry per lexeme of the source in order, every lexeme is classifiable,
/// each entry carries its lexeme's code or its position in the final
/// symbol table, and the symbol table holds scanned lexemes only.
pub open spec fn scan_ok(
    lines: Seq<Seq<char>>,
    cat: Seq<Seq<char>>,
    int_fa: FiniteAutomaton,
    id_fa: FiniteAutomaton,
    entries: Seq<PIFEntry>,
    st: SymbolTable,
) -> bool {
    &&& st.well_formed()
    &&& entries.len() == all_tokens(lines).len()
    &&& forall|i: int|
        0 <= i < entries.len() ==> token_ok(#[trigger] all_tokens(lines)[i], cat, int_fa, id_fa)
    &&& forall|i: int|
        0 <= i < entries.len() ==> entry_matches(
            #[trigger] entries[i],
            all_tokens(lines)[i],
            cat,
            int_fa,
            id_fa,
            st,
        )
    &&& st_covered(st, all_tokens(lines), cat, int_fa, id_fa)
}

pub fn process_source_code(
    lines: &Vec<String>,
    token_manager: &TokenManager,
    int_const_fa: &FiniteAutomaton,
    id_fa: &FiniteAutomaton,
) -> (r: Result<(PIF, SymbolTable), LexicalError>)
    requires
        token_manager.well_formed(),
        int_const_fa.well_formed(),
        id_fa.well_formed(),
        lines@.len() < 0x7fff_ffff,
    ensures
        r is Ok <==> first_error_line(
            line_views(lines@),
            token_manager.catalogue(),
            *int_const_fa,
            *id_fa,
        ) > lines@.len(),
        match r {
            Ok(out) => scan_ok(
                line_views(lines@),
                token_manager.catalogue(),
                *int_const_fa,
                *id_fa,
                out.0.entries(),
                out.1,
            ),
            Err(e) => e.line as int == first_error_line(
                line_views(lines@),
                token_manager.catalogue(),
                *int_const_fa,
                *id_fa,
            ),
        },
{
    let mut res = PIF::new();
    let mut symbol_table = SymbolTable::new(10);
    let ghost lv = line_views(lines@);
    let ghost cat = token_manager.catalogue();
    let mut line_num: i32 = 1;
    let mut li: usize = 0;
    proof {
        assert(lv.take(0) =~= Seq::<Seq<char>>::empty());
    }
    while li < lines.len()
        invariant
            li <= lines@.len(),
            lines@.len() < 0x7fff_ffff,
            line_num as int == li as int + 1,
            token_manager.well_formed(),
            int_const_fa.well_formed(),
            id_fa.well_formed(),
            cat == token_manager.catalogue(),
            lv == line_views(lines@),
            lv.len() == lines@.len(),
            symbol_table.well_formed(),
            res.well_formed(),
            res.entries().len() == all_tokens(lv.take(li as int)).len(),
            forall|i: int|
                0 <= i < res.entries().len() ==> token_ok(
                    #[trigger] all_tokens(lv.take(li as int))[i],
                    cat,
                    *int_const_fa,
                    *id_fa,
                ),
            forall|i: int|
                0 <= i < res.entries().len() ==> entry_matches(
                    #[trigger] res.entries()[i],
                    all_tokens(lv.take(li as int))[i],
                    cat,
                    *int_const_fa,
                    *id_fa,
                    symbol_table,
                ),
            st_covered(symbol_table, all_tokens(lv.take(li as int)), cat, *int_const_fa, *id_fa),
            forall|l: int| 0 <= l < li as int ==> line_all_ok(#[trigger] lv[l], cat, *int_const_fa, *id_fa),
        decreases lines@.len() - li,
    {
        let line: &String = &lines[li];
        proof {
            assert(line@ == lv[li as int]);
        }
        let tokens: Vec<String> = extract_tokens_from_line(line.as_str());
        let ghost toks = spec_tokenize(lv[li as int]);
        let ghost base = all_tokens(lv.take(li as int));
        let mut ti: usize = 0;
        proof {
            assert(toks.take(0) =~= Seq::<Seq<char>>::empty());
            assert(base + toks.take(0) =~= base);
        }
        while ti < tokens.len()
            invariant
                ti <= tokens@.len(),
                token_manager.well_formed(),
                int_const_fa.well_formed(),
                id_fa.well_formed(),
                cat == token_manager.catalogue(),
                li < lv.len(),
                line_num as int == li as int + 1,
                toks == spec_tokenize(lv[li as int]),
                tokens@.map_values(|t: String| t@) == toks,
                base == all_tokens(lv.take(li as int)),
                lv == line_views(lines@),
                lv.len() == lines@.len(),
                lines@.len() < 0x7fff_ffff,
                forall|l: int|
                    0 <= l < li as int ==> line_all_ok(
                        #[trigger] lv[l],
                        cat,
                        *int_const_fa,
                        *id_fa,
                    ),
                symbol_table.well_formed(),
                res.well_formed(),
                res.entries().len() == base.len() + ti as int,
                forall|i: int|
                    0 <= i < res.entries().len() ==> token_ok(
                        #[trigger] (base + toks.take(ti as int))[i],
                        cat,
                        *int_const_fa,
                        *id_fa,
                    ),
                forall|i: int|
                    0 <= i < res.entries().len() ==> entry_matches(
                        #[trigger] res.entries()[i],
                        (base + toks.take(ti as int))[i],
                        cat,
                        *int_const_fa,
                        *id_fa,
                        symbol_table,
                    ),
                st_covered(
                    symbol_table,
                    base + toks.take(ti as int),
                    cat,
                    *int_const_fa,
                    *id_fa,
                ),
            decreases tokens@.len() - ti,
        {
            let token: &String = &tokens[ti];
            let ghost t = toks[ti as int];
            proof {
                assert(token@ == t);
                assert((base + toks.take(ti as int + 1)).len() == res.entries().len() + 1);
            }
            let ghost done0 = base + toks.take(ti as int);
            let ghost entries0 = res.entries();
            let ghost st0 = symbol_table;
            match token_manager.get_token_code(token.as_str()) {
                Some(code) => {
                    res.add(PIFEntry { token: code, st_pos: None });
                },
                None => {
                    match add_id_or_constant_to_pif(
                        &mut res,
                        token.as_str(),
                        &mut symbol_table,
                        line_num,
                        int_const_fa,
                        id_fa,
                    ) {
                        Ok(()) => {
                        },
                        Err(e) => {
                            proof {
                                assert(!token_ok(t, cat, *int_const_fa, *id_fa));
                                assert(!line_all_ok(lv[li as int], cat, *int_const_fa, *id_fa));
                                lemma_error_line_skip(lv, cat, *int_const_fa, *id_fa, li as int);
                                assert(lv.skip(li as int)[0] == lv[li as int]);
                                assert(first_error_line(
                                    lv.skip(li as int),
                                    cat,
                                    *int_const_fa,
                                    *id_fa,
                                ) == 1);
                            }
                            return Err(e);
                        },
                    }
                },
            }
            proof {
                let done1 = base + toks.take(ti as int + 1);
                assert(toks.take(ti as int + 1).drop_last() =~= toks.take(ti as int));
                assert(toks.take(ti as int + 1).last() == t);
                assert(done1.drop_last() =~= done0);
                assert(done1.last() == t);
                assert(done1 =~= done0.push(t));
                let lastp = match res.entries().last().st_pos {
                    Some(q) => (q.bucket, q.item),
                    None => (0usize, 0usize),
                };
                lemma_covered_step(
                    st0,
                    symbol_table,
                    done0,
                    t,
                    cat,
                    *int_const_fa,
                    *id_fa,
                    lastp,
                );
                assert(res.entries().len() == done1.len());
                assert(res.entries().drop_last() =~= entries0);
                assert forall|i: int|
                    0 <= i < res.entries().len() implies token_ok(
                    #[trigger] done1[i],
                    cat,
                    *int_const_fa,
                    *id_fa,
                ) && entry_matches(
                    res.entries()[i],
                    done1[i],
                    cat,
                    *int_const_fa,
                    *id_fa,
                    symbol_table,
                ) by {
                    if i < done1.len() - 1 {
                        assert(done1[i] == done0[i]);
                        assert(res.entries()[i] == entries0[i]);
                        assert(entry_matches(
                            entries0[i],
                            done0[i],
                            cat,
                            *int_const_fa,
                            *id_fa,
                            st0,
                        ));
                        lemma_entry_matches_preserved(
                            entries0[i],
                            done0[i],
                            t,
                            cat,
                            *int_const_fa,
                            *id_fa,
                            st0,
                            symbol_table,
                            res.entries().last(),
                        );
                    } else {
                        assert(done1[i] == t);
                        assert(res.entries()[i] == res.entries().last());
                    }
                }
            }
            ti += 1;
        }
        proof {
            assert(toks.take(tokens@.len() as int) =~= toks);
            assert(lv.take(li as int + 1) =~= lv.take(li as int).push(lv[li as int]));
            lemma_all_tokens_snoc(lv.take(li as int), lv[li as int]);
            assert(all_tokens(lv.take(li as int + 1)) =~= base + toks);
            assert forall|j: int|
                0 <= j < spec_tokenize(lv[li as int]).len() implies token_ok(
                #[trigger] spec_tokenize(lv[li as int])[j],
                cat,
                *int_const_fa,
                *id_fa,
            ) by {
                assert((base + toks)[base.len() + j] == toks[j]);
            }
        }
        li += 1;
        line_num += 1;
    }
    proof {
        assert(lv.take(lines@.len() as int) =~= lv);
        lemma_error_line_skip(lv, cat, *int_const_fa, *id_fa, lv.len() as int);
        assert(lv.skip(lv.len() as int) =~= Seq::<Seq<char>>::empty());
    }
    Ok((res, symbol_table))
}

/// Interning: in a successful scan, two occurrences of the same lexeme
/// produce PIF entries with the same code and the same symbol table position.
pub proof fn lemma_pif_interning(
    lines: Seq<Seq<char>>,
    cat: Seq<Seq<char>>,
    int_fa: FiniteAutomaton,
    id_fa: FiniteAutomaton,
    entries: Seq<PIFEntry>,
    st: SymbolTable,
    i: int,
    j: int,
)
    requires
        scan_ok(lines, cat, int_fa, id_fa, entries, st),
        0 <= i < entries.len(),
        0 <= j < entries.len(),
        all_tokens(lines)[i] == all_tokens(lines)[j],
    ensures
        entries[i].token == entries[j].token,
        entries[i].st_pos == entries[j].st_pos,
{
    let t = all_tokens(lines)[i];
    assert(entry_matches(entries[i], t, cat, int_fa, id_fa, st));
    assert(entry_matches(entries[j], t, cat, int_fa, id_fa, st));
    if spec_code_of(cat, t) is None {
        let p = entries[i].st_pos.unwrap();
        let q = entries[j].st_pos.unwrap();
        assert(p.tp == q.tp && p.bucket == q.bucket && p.item == q.item);
        assert(p == q);
    }
}

/// One find-or-insert step of the symbol table never disturbs what an earlier
/// PIF entry says.
proof fn lemma_entry_matches_preserved(
    e: PIFEntry,
    u: Seq<char>,
    t: Seq<char>,
    cat: Seq<Seq<char>>,
    int_fa: FiniteAutomaton,
    id_fa: FiniteAutomaton,
    st0: SymbolTable,
    st1: SymbolTable,
    last: PIFEntry,
)
    requires
        st0.well_formed(),
        entry_matches(e, u, cat, int_fa, id_fa, st0),
        spec_code_of(cat, t) is Some ==> st1 == st0,
        spec_code_of(cat, t) is None ==> match last.st_pos {
            Some(p) => st_step(st0, st1, t, int_fa, id_fa, (p.bucket, p.item)),
            None => false,
        },
    ensures
        entry_matches(e, u, cat, int_fa, id_fa, st1),
{
    if spec_code_of(cat, t) is Some {
    } else {
        let p = last.st_pos.unwrap();
        if spec_code_of(cat, u) is Some {
        } else {
            let q = e.st_pos.unwrap();
            if int_fa.spec_accepts(t) == Ok::<bool, NotDFAError>(true) {
                if int_fa.spec_accepts(u) == Ok::<bool, NotDFAError>(true) {
                    lemma_added_preserves_find(
                        st0.ints(),
                        st1.ints(),
                        int_value_i32(u),
                        int_value_i32(t),
                        (p.bucket, p.item),
                    );
                }
            } else if is_string_literal(t) {
                if !(int_fa.spec_accepts(u) == Ok::<bool, NotDFAError>(true)) && is_string_literal(
                    u,
                ) {
                    lemma_added_preserves_find(
                        st0.strs(),
                        st1.strs(),
                        u,
                        t,
                        (p.bucket, p.item),
                    );
                }
            } else {
                if !(int_fa.spec_accepts(u) == Ok::<bool, NotDFAError>(true))
                    && !is_string_literal(u) {
                    lemma_added_preserves_find(
                        st0.ids(),
                        st1.ids(),
                        u,
                        t,
                        (p.bucket, p.item),
                    );
                }
            }
        }
    }
}

} // verus!
