//! The tokenizer: segments one source line into lexemes by character-class
//! accumulation. Identifier-like and operator-like runs coalesce; separators
//! stand alone, except the dot, which glues to the run before it. Empty
//! lexemes and lone spaces are discarded.

use vstd::prelude::*;
use vstd::string::StrSliceExecFns;
use crate::text::push_char;

verus! {

/// The class of a source character.
#[derive(Debug, Clone, Copy, PartialEq, Eq, Structural)]
pub enum CharType {
    SEPARATOR,
    OPERATOR,
    OTHER,
}

/// The class of `c`: separators are `( ) [ ] { } : ;`, the space and the dot;
/// operators are `+ - * / % = < > !`; everything else is ordinary.
pub open spec fn spec_char_class(c: char) -> CharType {
    if c == '(' || c == ')' || c == '[' || c == ']' || c == '{' || c == '}' || c == ':' || c == ';'
        || c == ' ' || c == '.' {
        CharType::SEPARATOR
    } else if c == '+' || c == '-' || c == '*' || c == '/' || c == '%' || c == '=' || c == '<'
        || c == '>' || c == '!' {
        CharType::OPERATOR
    } else {
        CharType::OTHER
    }
}

pub fn is_separator_char(ch: char) -> (r: bool)
    ensures
        r == (spec_char_class(ch) == CharType::SEPARATOR),
{
    ch == '(' || ch == ')' || ch == '[' || ch == ']' || ch == '{' || ch == '}' || ch == ':' || ch
        == ';' || ch == ' ' || ch == '.'
}

pub fn is_operator_char(ch: char) -> (r: bool)
    ensures
        r == (spec_char_class(ch) == CharType::OPERATOR),
{
    ch == '+' || ch == '-' || ch == '*' || ch == '/' || ch == '%' || ch == '=' || ch == '<' || ch
        == '>' || ch == '!'
}

/// Whether `c` extends the current lexeme: its class continues a non-separator
/// run, or it is the dot, the one separator that glues.
pub open spec fn glues(c: char, last_class: CharType) -> bool {
    ||| (spec_char_class(c) == last_class && spec_char_class(c) != CharType::SEPARATOR)
    ||| (spec_char_class(c) == CharType::SEPARATOR && c == '.')
}

/// Whether a finished lexeme is kept: not empty and not a lone space.
pub open spec fn keep_lexeme(t: Seq<char>) -> bool {
    t.len() > 0 && !(t.len() == 1 && t[0] == ' ')
}

/// The lexemes that the rest of `s`, from index `i`, contributes, given the
/// current lexeme `cur` of class `cls`.
pub open spec fn spec_tokenize_from(s: Seq<char>, i: int, cur: Seq<char>, cls: CharType) -> Seq<
    Seq<char>,
>
    decreases s.len() - i,
{
    if i < 0 || i >= s.len() {
        if keep_lexeme(cur) {
            seq![cur]
        } else {
            seq![]
        }
    } else {
        let c = s[i];
        if glues(c, cls) {
            spec_tokenize_from(s, i + 1, cur.push(c), cls)
        } else {
            let rest = spec_tokenize_from(s, i + 1, seq![c], spec_char_class(c));
            if keep_lexeme(cur) {
                seq![cur] + rest
            } else {
                rest
            }
        }
    }
}

/// The lexemes of one source line, in order.
pub open spec fn spec_tokenize(s: Seq<char>) -> Seq<Seq<char>> {
    spec_tokenize_from(s, 0, Seq::empty(), CharType::OTHER)
}

/// Whether the current lexeme is kept when it ends.
fn keep_current(cur: &String) -> (r: bool)
    ensures
        r == keep_lexeme(cur@),
{
    let n = cur.as_str().unicode_len();
    n > 0 && !(n == 1 && cur.as_str().get_char(0) == ' ')
}

pub fn extract_tokens_from_line(line: &str) -> (r: Vec<String>)
    ensures
        r@.map_values(|t: String| t@) == spec_tokenize(line@),
{
    let mut rez: Vec<String> = Vec::new();
    let mut last_token = String::new();
    let mut last_char_type = CharType::OTHER;
    let n = line.unicode_len();
    let mut i: usize = 0;
    while i < n
        invariant
            i <= n,
            n == line@.len(),
            spec_tokenize(line@) == rez@.map_values(|t: String| t@) + spec_tokenize_from(
                line@,
                i as int,
                last_token@,
                last_char_type,
            ),
        decreases n - i,
    {
        let ghost rez0 = rez@.map_values(|t: String| t@);
        let ghost cur0 = last_token@;
        let ghost cls0 = last_char_type;
        let ch = line.get_char(i);
        let current_char_type = if is_separator_char(ch) {
            CharType::SEPARATOR
        } else if is_operator_char(ch) {
            CharType::OPERATOR
        } else {
            CharType::OTHER
        };
        proof {
            assert(current_char_type == spec_char_class(line@[i as int]));
        }
        if (current_char_type == last_char_type && current_char_type != CharType::SEPARATOR) || (
        current_char_type == CharType::SEPARATOR && ch == '.') {
            push_char(&mut last_token, ch);
            proof {
                assert(glues(line@[i as int], cls0));
            }
        } else {
            proof {
                assert(!glues(line@[i as int], cls0));
            }
            if keep_current(&last_token) {
                rez.push(last_token);
                proof {
                    assert(rez@.map_values(|t: String| t@) =~= rez0.push(cur0));
                }
            }
            last_token = String::new();
            push_char(&mut last_token, ch);
            last_char_type = current_char_type;
            proof {
                assert(last_token@ =~= seq![line@[i as int]]);
                let rest = spec_tokenize_from(
                    line@,
                    i + 1,
                    seq![line@[i as int]],
                    spec_char_class(line@[i as int]),
                );
                if keep_lexeme(cur0) {
                    assert(rez0.push(cur0) + rest =~= rez0 + (seq![cur0] + rest));
                }
            }
        }
        i += 1;
    }
    if keep_current(&last_token) {
        let ghost rez0 = rez@.map_values(|t: String| t@);
        let ghost cur0 = last_token@;
        rez.push(last_token);
        proof {
            assert(rez@.map_values(|t: String| t@) =~= rez0.push(cur0));
            assert(rez0.push(cur0) =~= rez0 + seq![cur0]);
        }
    } else {
        proof {
            assert(rez@.map_values(|t: String| t@) + seq![] =~= rez@.map_values(|t: String| t@));
        }
    }
    rez
}

} // verus!
