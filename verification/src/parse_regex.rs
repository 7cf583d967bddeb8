//! The pattern tokenizer: from a pattern's characters to a sequence of tokens.

use crate::chars::{
    chars_to_strings,
    slice_chars,
    str_to_chars,
    string_views,
    strings_to_chars,
    views,
};
use crate::class::{character_class_chars, distinct_chars, spec_character_class, spec_distinct};
use crate::parts::{
    spec_split_pipes_vec,
    spec_split_to_parts,
    split_pipes_vec_chars,
    split_to_parts_chars,
};
use crate::quantifier::{parse_quantifier, spec_quantifier};
use crate::scan::{
    find_paren_match_chars,
    find_pipes_chars,
    spec_find_paren_match,
    spec_find_pipes,
    spec_split_pipes,
    split_pipes_chars,
};
use crate::tokens::{
    parts_to_token_chars,
    spec_parts_to_token,
    spec_token,
    spec_tokenize,
    token_from_chars,
    tokenize_chars,
    tokens_view,
};
use vstd::prelude::*;

verus! {

/// Why a pattern cannot be compiled.
#[derive(PartialEq, Eq, Debug, Copy, Clone, Structural)]
pub enum RegexError {
    /// A delimiter is left open or closed without being opened, a repetition
    /// has no atom before it or has invalid bounds, or a group or class is empty.
    MalformedPattern,
    /// An automaton put together by hand breaks its rules: an edge leads to
    /// a state that is not there, or a deterministic automaton has an
    /// empty-label edge or two edges with one symbol.
    InvalidAutomaton,
}

/// The bounds of a counted repetition.
#[derive(PartialEq, Eq, Debug, Copy, Clone, Structural)]
pub enum RangeType {
    /// `{n}`: exactly `n` times.
    Discrete(usize),
    /// `{,n}`: at most `n` times.
    UpperBound(usize),
    /// `{n,}`: at least `n` times.
    LowerBound(usize),
    /// `{m,n}`: between `m` and `n` times, with `m <= n`.
    Both(usize, usize),
}

/// How often an atom may repeat.
#[derive(PartialEq, Eq, Debug, Copy, Clone, Structural)]
pub enum TokenQuantifier {
    Star,
    Plus,
    Question,
    Range(RangeType),
    /// No repetition: the atom stands exactly once.
    Once,
}

/// One node of a tokenized pattern.
#[derive(PartialEq, Debug)]
#[allow(inconsistent_fields)]
pub enum Token {
    /// A single symbol.
    Normal { token: char, quantifier: TokenQuantifier },
    /// A parenthesised sub-pattern.
    CaptureGroup { sub_groups: Vec<Token>, quantifier: TokenQuantifier },
    /// One symbol out of a set; the symbols are listed once each.
    CharacterClass { class_options: Vec<char>, quantifier: TokenQuantifier },
    /// A choice between sub-patterns.
    Pipe { sub_groups: Vec<Vec<Token>> },
}

/// The mathematical value of a [`Token`].
#[allow(inconsistent_fields)]
pub enum TokenModel {
    Normal { token: char, quantifier: TokenQuantifier },
    CaptureGroup { sub_groups: Seq<TokenModel>, quantifier: TokenQuantifier },
    CharacterClass { class_options: Seq<char>, quantifier: TokenQuantifier },
    Pipe { sub_groups: Seq<Seq<TokenModel>> },
}

/// The value of a token: the same tree, its lists taken as sequences.
pub open spec fn token_model(t: Token) -> TokenModel
    decreases t,
{
    match t {
        Token::Normal { token, quantifier } => TokenModel::Normal { token, quantifier },
        Token::CaptureGroup { sub_groups, quantifier } => TokenModel::CaptureGroup {
            sub_groups: Seq::new(
                sub_groups@.len(),
                |i: int|
                    if 0 <= i < sub_groups@.len() {
                        token_model(sub_groups@[i])
                    } else {
                        arbitrary()
                    },
            ),
            quantifier,
        },
        Token::CharacterClass { class_options, quantifier } => TokenModel::CharacterClass {
            class_options: class_options@,
            quantifier,
        },
        Token::Pipe { sub_groups } => TokenModel::Pipe {
            sub_groups: Seq::new(
                sub_groups@.len(),
                |i: int|
                    if 0 <= i < sub_groups@.len() {
                        Seq::new(
                            sub_groups@[i]@.len(),
                            |j: int|
                                if 0 <= j < sub_groups@[i]@.len() {
                                    token_model(sub_groups@[i]@[j])
                                } else {
                                    arbitrary()
                                },
                        )
                    } else {
                        arbitrary()
                    },
            ),
        },
    }
}

impl View for Token {
    type V = TokenModel;

    open spec fn view(&self) -> TokenModel {
        token_model(*self)
    }
}

impl TokenQuantifier {
    /// Reads a repetition suffix: nothing, `*`, `+`, `?` or a counted form in
    /// braces; `*`, `+` and the counted form may be followed by one `?`.
    pub fn from_string(quantifier: String) -> (r: Result<TokenQuantifier, RegexError>)
        ensures
            match r {
                Ok(q) => spec_quantifier(quantifier@) == Some(q),
                Err(_) => spec_quantifier(quantifier@).is_none(),
            },
    {
        let q = str_to_chars(quantifier.as_str());
        match parse_quantifier(&q) {
            Some(t) => Ok(t),
            None => Err(RegexError::MalformedPattern),
        }
    }

    /// Reads a counted repetition, braces included.
    pub fn range_from_string(quantifier: String) -> (r: Result<TokenQuantifier, RegexError>)
        ensures
            match r {
                Ok(q) => quantifier@.len() > 0 && quantifier@[0] == '{' && spec_quantifier(
                    quantifier@,
                ) == Some(q),
                Err(_) => quantifier@.len() == 0 || quantifier@[0] != '{' || spec_quantifier(
                    quantifier@,
                ).is_none(),
            },
    {
        let q = str_to_chars(quantifier.as_str());
        if q.len() == 0 || q[0] != '{' {
            return Err(RegexError::MalformedPattern);
        }
        match parse_quantifier(&q) {
            Some(t) => Ok(t),
            None => Err(RegexError::MalformedPattern),
        }
    }
}

impl Token {
    /// Reads one part of a pattern, an atom with its repetition, as a token.
    pub fn from(part: String) -> (r: Result<Token, RegexError>)
        ensures
            match r {
                Ok(t) => spec_token(part@) == Some(t@),
                Err(_) => spec_token(part@).is_none(),
            },
    {
        let p = str_to_chars(part.as_str());
        token_from_chars(&p)
    }
}

/// The index of the last `c` among the first `n` characters of `s`.
pub open spec fn spec_rfind(s: Seq<char>, n: int, c: char) -> Option<int>
    decreases n,
{
    if n <= 0 || n > s.len() {
        None
    } else if s[n - 1] == c {
        Some(n - 1)
    } else {
        spec_rfind(s, n - 1, c)
    }
}

/// The tokens and the flags of a pattern.
///
/// A pattern that begins with `/` is delimited: it runs from behind that
/// slash to the last slash, which must be another one, and the characters
/// behind the last slash are its flags, each listed once. Any other pattern
/// is taken whole and has no flags.
pub open spec fn spec_process_regex(s: Seq<char>) -> Option<(Seq<TokenModel>, Seq<char>)> {
    if s.len() > 0 && s[0] == '/' {
        match spec_rfind(s, s.len() as int, '/') {
            Some(r) => if r > 0 {
                match spec_tokenize(s.subrange(1, r)) {
                    Some(ts) => Some((ts, spec_distinct(s.subrange(r + 1, s.len() as int)))),
                    None => None,
                }
            } else {
                None
            },
            None => None,
        }
    } else {
        match spec_tokenize(s) {
            Some(ts) => Some((ts, Seq::empty())),
            None => None,
        }
    }
}

/// Finds the last `c` in `s`.
fn rfind_char(s: &Vec<char>, c: char) -> (r: Option<usize>)
    ensures
        match r {
            Some(k) => spec_rfind(s@, s@.len() as int, c) == Some(k as int) && k < s@.len(),
            None => spec_rfind(s@, s@.len() as int, c).is_none(),
        },
{
    let mut n: usize = s.len();
    while n > 0
        invariant
            n <= s.len(),
            spec_rfind(s@, s@.len() as int, c) == spec_rfind(s@, n as int, c),
        decreases n,
    {
        if s[n - 1] == c {
            return Some(n - 1);
        }
        n -= 1;
    }
    None
}

/// Tokenizes a pattern and collects its flags.
///
/// Fails with `MalformedPattern` where the pattern opens with a slash that no
/// later slash closes, or where what stands between the slashes, or the whole
/// undelimited pattern, is malformed.
pub fn process_regex(regex: &str) -> (r: Result<(Vec<Token>, Vec<char>), RegexError>)
    ensures
        match r {
            Ok((tokens, flags)) => spec_process_regex(regex@) == Some(
                (tokens_view(tokens@), flags@),
            ),
            Err(_) => spec_process_regex(regex@).is_none(),
        },
{
    let s = str_to_chars(regex);
    let n: usize = s.len();
    if n == 0 || s[0] != '/' {
        return match tokenize_chars(&s) {
            Ok(tokens) => Ok((tokens, Vec::new())),
            Err(e) => Err(e),
        };
    }
    match rfind_char(&s, '/') {
        Some(r) => {
            if r == 0 {
                return Err(RegexError::MalformedPattern);
            }
            let body = slice_chars(&s, 1, r);
            let tail = slice_chars(&s, r + 1, n);
            match tokenize_chars(&body) {
                Ok(tokens) => Ok((tokens, distinct_chars(&tail))),
                Err(e) => Err(e),
            }
        },
        None => Err(RegexError::MalformedPattern),
    }
}

/// Cuts a pattern into parts, one atom with its repetition each; a bar is a
/// part by itself.
pub fn split_to_parts(regex: String) -> (r: Result<Vec<String>, RegexError>)
    ensures
        match r {
            Ok(parts) => spec_split_to_parts(regex@) == Some(string_views(parts@)),
            Err(_) => spec_split_to_parts(regex@).is_none(),
        },
{
    let s = str_to_chars(regex.as_str());
    match split_to_parts_chars(&s) {
        Ok(parts) => Ok(chars_to_strings(&parts)),
        Err(e) => Err(e),
    }
}

/// Reads a list of parts as tokens; lone bars among them make a choice.
pub fn parts_to_token(parts: Vec<String>) -> (r: Result<Vec<Token>, RegexError>)
    ensures
        match r {
            Ok(ts) => spec_parts_to_token(string_views(parts@)) == Some(tokens_view(ts@)),
            Err(_) => spec_parts_to_token(string_views(parts@)).is_none(),
        },
{
    let p = strings_to_chars(&parts);
    parts_to_token_chars(&p)
}

/// Tokenizes a pattern.
///
/// Fails with `MalformedPattern` where a delimiter is left open or closed
/// without being opened, a repetition has no atom before it or is ill-formed,
/// or a group or class is empty.
pub fn tokenize(regex: String) -> (r: Result<Vec<Token>, RegexError>)
    ensures
        match r {
            Ok(ts) => spec_tokenize(regex@) == Some(tokens_view(ts@)),
            Err(_) => spec_tokenize(regex@).is_none(),
        },
{
    let s = str_to_chars(regex.as_str());
    tokenize_chars(&s)
}

/// Finds the delimiter that closes the opener at `starting_index`, counted in
/// characters; `None` where no opener stands there or it is never closed.
pub fn find_paren_match(regex: &String, starting_index: usize) -> (r: Option<usize>)
    ensures
        match r {
            Some(e) => spec_find_paren_match(regex@, starting_index as int) == Some(e as int),
            None => spec_find_paren_match(regex@, starting_index as int).is_none(),
        },
{
    let s = str_to_chars(regex.as_str());
    find_paren_match_chars(&s, starting_index)
}

/// Whether a pattern has a top-level alternation bar.
pub fn check_pipe(regex: &String) -> (r: bool)
    ensures
        r == (spec_find_pipes(regex@).len() > 0),
{
    let s = str_to_chars(regex.as_str());
    find_pipes_chars(&s).len() > 0
}

/// The indices, counted in characters, of the top-level alternation bars.
pub fn find_pipes(regex: &String) -> (pipes: Vec<usize>)
    ensures
        pipes@.len() == spec_find_pipes(regex@).len(),
        forall|k: int| 0 <= k < pipes@.len() ==> pipes@[k] as int == spec_find_pipes(regex@)[k],
{
    let s = str_to_chars(regex.as_str());
    find_pipes_chars(&s)
}

/// Splits a pattern into its alternatives, at the top-level bars.
pub fn split_pipes(regex: &String) -> (out: Vec<String>)
    ensures
        string_views(out@) == spec_split_pipes(regex@),
{
    let s = str_to_chars(regex.as_str());
    let pieces = split_pipes_chars(&s);
    chars_to_strings(&pieces)
}

/// The character sequences of a list of string lists.
pub open spec fn group_views(v: Seq<Vec<String>>) -> Seq<Seq<Seq<char>>> {
    Seq::new(v.len(), |i: int| string_views(v[i]@))
}

/// Divides a list of parts into groups at the parts that are a lone bar.
pub fn split_pipes_vec(parts: &Vec<String>) -> (out: Vec<Vec<String>>)
    ensures
        group_views(out@) == spec_split_pipes_vec(string_views(parts@)),
{
    let p = strings_to_chars(parts);
    let groups = split_pipes_vec_chars(&p);
    let mut out: Vec<Vec<String>> = Vec::new();
    let mut k: usize = 0;
    while k < groups.len()
        invariant
            k <= groups.len(),
            out@.len() == k,
            forall|j: int| 0 <= j < k ==> string_views((#[trigger] out@[j])@) == views(groups@[j]@),
        decreases groups.len() - k,
    {
        out.push(chars_to_strings(&groups[k]));
        k += 1;
    }
    assert(group_views(out@) =~= spec_split_pipes_vec(string_views(parts@)));
    out
}

/// Lists the symbols of the body of a character class, each once, in order
/// of first appearance.
pub fn process_character_class(character_class: String) -> (out: Vec<char>)
    ensures
        out@ == spec_character_class(character_class@),
        out@.no_duplicates(),
{
    let s = str_to_chars(character_class.as_str());
    character_class_chars(&s)
}

} // verus!
