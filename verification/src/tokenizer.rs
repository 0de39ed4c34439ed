//! The directive tokenizer: classifies one raw line as a directive token
//! or as plain content.

use crate::text::{
    char_vec_views, chars_eq_str, chars_to_string, find_from, find_sub, find_sub_chars, indent_of,
    parse_i32_or_zero, push_chars, repeat_spaces, spaces, split_whitespace_chars, split_ws,
    string_views, sub_chars, to_chars,
};
use crate::util::Setting;
use vstd::prelude::*;

verus! {

/// Mathematical model of a directive token.
pub enum TokenModel {
    /// `+IN label` / `-IN label`: open or close a named extract.
    In { label: Seq<char>, start: bool },
    /// `+OUT` / `-OUT`: open or close global suppression.
    Out { start: bool },
    /// `+EXC` / `-EXC`: open or close an exercise-only region.
    Exc { start: bool },
    /// `+VAR`, `+HEADER` / `-VAR`, `-HEADER`: substitute a region with fixed text.
    Subst { text: Seq<char>, start: bool },
    /// `+EXCSUBST` / `-EXCSUBST`: substitute unless the solution variant is emitted.
    ExcSubst { text: Seq<char>, start: bool },
}

/// Whether `t` is one of the configured comment-escape markers.
pub open spec fn is_marker(t: Seq<char>, markers: Seq<Seq<char>>) -> bool {
    exists|k: int| 0 <= k < markers.len() && markers[k] == t
}

/// Everything on `line` after the first occurrence of `p` at or after
/// `from`, and one separating character; empty where `p` does not occur
/// or nothing follows it.
pub open spec fn rest_after_at(line: Seq<char>, p: Seq<char>, from: int) -> Seq<char> {
    match find_from(line, p, from) {
        Some(k) => if k + p.len() + 1 <= line.len() {
            line.subrange(k + p.len() as int + 1, line.len() as int)
        } else {
            Seq::empty()
        },
        None => Seq::empty(),
    }
}

/// Everything on `line` after the first occurrence of `p` and one
/// separating character.
pub open spec fn rest_after(line: Seq<char>, p: Seq<char>) -> Seq<char> {
    rest_after_at(line, p, 0)
}

/// The substitution text of a `+VAR`/`+EXCSUBST` directive: `t2` read as
/// an indentation count (0 if unreadable) many spaces, then the rest of
/// the line after the keyword and the indentation argument.
pub open spec fn var_text(line: Seq<char>, t1: Seq<char>, t2: Seq<char>) -> Seq<char> {
    spaces(indent_of(t2)) + rest_after(line, t1 + seq![' '] + t2)
}

/// The substitution text of a `+HEADER` directive: everything on the
/// line after the marker and the keyword, however the two are separated.
pub open spec fn header_text(line: Seq<char>, t0: Seq<char>, t1: Seq<char>) -> Seq<char> {
    match find_sub(line, t0) {
        Some(m) => rest_after_at(line, t1, m + t0.len() as int),
        None => Seq::empty(),
    }
}

/// The classification of one raw line, given the configured markers:
/// the directive token it spells, or `None` for plain content.
pub open spec fn token_of(line: Seq<char>, markers: Seq<Seq<char>>) -> Option<TokenModel> {
    let toks = split_ws(line);
    if toks.len() == 2 && is_marker(toks[0], markers) {
        if toks[1] == "+OUT"@ {
            Some(TokenModel::Out { start: true })
        } else if toks[1] == "-OUT"@ {
            Some(TokenModel::Out { start: false })
        } else if toks[1] == "+EXC"@ {
            Some(TokenModel::Exc { start: true })
        } else if toks[1] == "-EXC"@ {
            Some(TokenModel::Exc { start: false })
        } else if toks[1] == "-EXCSUBST"@ {
            Some(TokenModel::ExcSubst { text: Seq::empty(), start: false })
        } else if toks[1] == "-HEADER"@ || toks[1] == "-VAR"@ {
            Some(TokenModel::Subst { text: Seq::empty(), start: false })
        } else {
            None
        }
    } else if toks.len() >= 3 && is_marker(toks[0], markers) {
        if toks[1] == "+IN"@ {
            Some(TokenModel::In { label: toks[2], start: true })
        } else if toks[1] == "-IN"@ {
            Some(TokenModel::In { label: toks[2], start: false })
        } else if toks[1] == "+HEADER"@ {
            Some(TokenModel::Subst { text: header_text(line, toks[0], toks[1]), start: true })
        } else if toks[1] == "+VAR"@ {
            Some(TokenModel::Subst { text: var_text(line, toks[1], toks[2]), start: true })
        } else if toks[1] == "+EXCSUBST"@ {
            Some(TokenModel::ExcSubst { text: var_text(line, toks[1], toks[2]), start: true })
        } else {
            None
        }
    } else {
        None
    }
}

/// A directive token as the parser consumes it.
pub enum Token {
    /// `+/-IN`: `label` names the extract, `start` tells open from close.
    RegularToken { label: String, start: bool },
    /// `+/-OUT`
    QuietToken { start: bool },
    /// `+/-EXC`
    ExerciseToken { start: bool },
    /// `+/-VAR`, `+/-HEADER`: the next lines are replaced with `s`.
    ReplaceToken { s: String, start: bool },
    /// `+/-EXCSUBST`
    ExerciseReplaceToken { s: String, start: bool },
}

impl View for Token {
    type V = TokenModel;

    open spec fn view(&self) -> TokenModel {
        match self {
            Token::RegularToken { label, start } => TokenModel::In { label: label@, start: *start },
            Token::QuietToken { start } => TokenModel::Out { start: *start },
            Token::ExerciseToken { start } => TokenModel::Exc { start: *start },
            Token::ReplaceToken { s, start } => TokenModel::Subst { text: s@, start: *start },
            Token::ExerciseReplaceToken { s, start } => TokenModel::ExcSubst {
                text: s@,
                start: *start,
            },
        }
    }
}

/// Whether the token `t` equals one of the configured escape markers.
fn is_comment_escape(t: &Vec<char>, comment: &Vec<String>) -> (r: bool)
    ensures
        r == is_marker(t@, string_views(comment@)),
{
    let mut k: usize = 0;
    while k < comment.len()
        invariant
            0 <= k <= comment@.len(),
            forall|j: int| 0 <= j < k ==> string_views(comment@)[j] != t@,
        decreases comment@.len() - k,
    {
        if chars_eq_str(t, comment[k].as_str()) {
            proof {
                assert(string_views(comment@)[k as int] == t@);
            }
            return true;
        }
        k = k + 1;
    }
    false
}

/// The rest of `line` after the first occurrence of `p` at or after
/// `from`, and one separating character.
fn rest_after_chars(line: &Vec<char>, p: &Vec<char>, from: usize) -> (r: Vec<char>)
    ensures
        r@ == rest_after_at(line@, p@, from as int),
{
    match find_sub_chars(line, p, from) {
        Some(k) => {
            if k < line.len() - p.len() {
                sub_chars(line, k + p.len() + 1, line.len())
            } else {
                Vec::new()
            }
        },
        None => Vec::new(),
    }
}

/// The substitution text of a `+VAR`/`+EXCSUBST` directive on `line`,
/// with keyword token `t1` and indentation token `t2`.
fn var_text_chars(line: &Vec<char>, t1: &Vec<char>, t2: &Vec<char>) -> (r: Vec<char>)
    ensures
        r@ == var_text(line@, t1@, t2@),
{
    let indent = parse_i32_or_zero(t2);
    let mut out = repeat_spaces(indent);
    let mut p: Vec<char> = Vec::new();
    push_chars(&mut p, t1);
    p.push(' ');
    proof {
        assert(p@ =~= t1@ + seq![' ']);
    }
    push_chars(&mut p, t2);
    let rest = rest_after_chars(line, &p, 0);
    push_chars(&mut out, &rest);
    out
}

/// The text following the marker `t0` and the keyword `t1` on `line`.
fn header_text_chars(line: &Vec<char>, t0: &Vec<char>, t1: &Vec<char>) -> (r: Vec<char>)
    ensures
        r@ == header_text(line@, t0@, t1@),
{
    match find_sub_chars(line, t0, 0) {
        Some(m) => {
            proof {
                assert(line@.len() <= usize::MAX) by {
                    vstd::std_specs::vec::axiom_spec_len(line);
                }
            }
            rest_after_chars(line, t1, m + t0.len())
        },
        None => Vec::new(),
    }
}

/// Read the next token in the text file's `line`; the accepted markers
/// are controlled by `setting`.  Returns `None` for plain content.
pub fn read_token(line: &str, setting: &Setting) -> (r: Option<Token>)
    ensures
        match r {
            Some(t) => token_of(line@, setting.markers()) == Some(t@),
            None => token_of(line@, setting.markers()) is None,
        },
{
    let chars = to_chars(line);
    let toks = split_whitespace_chars(&chars);
    proof {
        assert(forall|j: int|
            0 <= j < toks@.len() ==> #[trigger] toks@[j]@ == char_vec_views(toks@)[j]);
    }
    if toks.len() == 2 && is_comment_escape(&toks[0], &setting.comment) {
        if chars_eq_str(&toks[1], "+OUT") {
            return Some(Token::QuietToken { start: true });
        }
        if chars_eq_str(&toks[1], "-OUT") {
            return Some(Token::QuietToken { start: false });
        }
        if chars_eq_str(&toks[1], "+EXC") {
            return Some(Token::ExerciseToken { start: true });
        }
        if chars_eq_str(&toks[1], "-EXC") {
            return Some(Token::ExerciseToken { start: false });
        }
        if chars_eq_str(&toks[1], "-EXCSUBST") {
            let s = String::new();
            return Some(Token::ExerciseReplaceToken { s, start: false });
        }
        if chars_eq_str(&toks[1], "-HEADER") || chars_eq_str(&toks[1], "-VAR") {
            let s = String::new();
            return Some(Token::ReplaceToken { s, start: false });
        }
        return None;
    }
    if toks.len() >= 3 && is_comment_escape(&toks[0], &setting.comment) {
        if chars_eq_str(&toks[1], "+IN") {
            let label = chars_to_string(&toks[2]);
            return Some(Token::RegularToken { label, start: true });
        }
        if chars_eq_str(&toks[1], "-IN") {
            let label = chars_to_string(&toks[2]);
            return Some(Token::RegularToken { label, start: false });
        }
        if chars_eq_str(&toks[1], "+HEADER") {
            let text = header_text_chars(&chars, &toks[0], &toks[1]);
            let s = chars_to_string(&text);
            return Some(Token::ReplaceToken { s, start: true });
        }
        if chars_eq_str(&toks[1], "+VAR") {
            let text = var_text_chars(&chars, &toks[1], &toks[2]);
            let s = chars_to_string(&text);
            return Some(Token::ReplaceToken { s, start: true });
        }
        if chars_eq_str(&toks[1], "+EXCSUBST") {
            let text = var_text_chars(&chars, &toks[1], &toks[2]);
            let s = chars_to_string(&text);
            return Some(Token::ExerciseReplaceToken { s, start: true });
        }
        return None;
    }
    None
}

} // verus!
