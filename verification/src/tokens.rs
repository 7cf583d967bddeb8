//! From the parts of a pattern to its tokens.

use crate::chars::{slice_chars, views};
use crate::class::{
    character_class_chars,
    escaped_symbol,
    plain_symbol,
    spec_character_class,
    spec_escaped_symbol,
    spec_plain_symbol,
};
use crate::parse_regex::{RegexError, Token, TokenModel};
use crate::parts::{
    has_bar_part,
    is_bar,
    is_suffix_or_closer,
    lemma_groups_from,
    lemma_part_le_total,
    lemma_parts_total_len,
    lemma_total_len_from,
    spec_split_pipes_vec,
    spec_split_to_parts,
    split_pipes_vec_chars,
    split_to_parts_chars,
    total_len,
};
use crate::quantifier::{parse_quantifier, spec_quantifier};
use crate::scan::{
    ascending_within,
    find_paren_match_chars,
    lemma_pipe_scan_bounds,
    spec_find_paren_match,
    spec_find_pipes,
    spec_pieces,
    spec_split_pipes,
    split_pipes_chars,
};
use vstd::prelude::*;

verus! {

/// The values of a list of tokens.
pub open spec fn tokens_view(v: Seq<Token>) -> Seq<TokenModel> {
    Seq::new(v.len(), |i: int| v[i]@)
}

/// The values of a list of token lists.
pub open spec fn branches_view(v: Seq<Vec<Token>>) -> Seq<Seq<TokenModel>> {
    Seq::new(v.len(), |i: int| tokens_view(v[i]@))
}

/// The token that a part writes.
///
/// A part that begins with `(` is a group: the tokens of what stands between
/// the parentheses, which may not be empty. One that begins with `[` is a
/// class of symbols, which may not be empty either. Any other part is a single
/// symbol, escaped or plain. What follows the atom is its repetition.
pub open spec fn spec_token(part: Seq<char>) -> Option<TokenModel>
    decreases part.len(), 0nat, 0nat,
{
    if part.len() == 0 {
        None
    } else if part[0] == '(' {
        match spec_find_paren_match(part, 0) {
            Some(e) => if 1 < e < part.len() {
                match (
                    spec_tokenize(part.subrange(1, e)),
                    spec_quantifier(part.subrange(e + 1, part.len() as int)),
                ) {
                    (Some(ts), Some(q)) => Some(
                        TokenModel::CaptureGroup { sub_groups: ts, quantifier: q },
                    ),
                    _ => None,
                }
            } else {
                None
            },
            None => None,
        }
    } else if part[0] == '[' {
        match spec_find_paren_match(part, 0) {
            Some(e) => if 1 < e < part.len() {
                match spec_quantifier(part.subrange(e + 1, part.len() as int)) {
                    Some(q) => Some(
                        TokenModel::CharacterClass {
                            class_options: spec_character_class(part.subrange(1, e)),
                            quantifier: q,
                        },
                    ),
                    None => None,
                }
            } else {
                None
            },
            None => None,
        }
    } else if is_suffix_or_closer(part[0]) {
        None
    } else if part[0] == '\\' {
        if part.len() >= 2 {
            match spec_quantifier(part.subrange(2, part.len() as int)) {
                Some(q) => Some(
                    TokenModel::Normal { token: spec_escaped_symbol(part[1]), quantifier: q },
                ),
                None => None,
            }
        } else {
            None
        }
    } else {
        match spec_quantifier(part.subrange(1, part.len() as int)) {
            Some(q) => Some(TokenModel::Normal { token: spec_plain_symbol(part[0]), quantifier: q }),
            None => None,
        }
    }
}

/// The tokens of `parts[k..]`, one for each part.
pub open spec fn spec_tokens_from(parts: Seq<Seq<char>>, k: int) -> Option<Seq<TokenModel>>
    decreases total_len(parts), 1nat, parts.len() - k,
{
    if k < 0 || k >= parts.len() {
        Some(Seq::empty())
    } else if parts[k].len() <= total_len(parts) {
        match (spec_token(parts[k]), spec_tokens_from(parts, k + 1)) {
            (Some(t), Some(rest)) => Some(seq![t] + rest),
            _ => None,
        }
    } else {
        None
    }
}

/// The token lists of `groups[k..]`, one for each group.
pub open spec fn spec_groups_tokens(groups: Seq<Seq<Seq<char>>>, k: int, bound: nat) -> Option<
    Seq<Seq<TokenModel>>,
>
    decreases bound, 2nat, groups.len() - k,
{
    if k < 0 || k >= groups.len() {
        Some(Seq::empty())
    } else if total_len(groups[k]) <= bound {
        match (spec_tokens_from(groups[k], 0), spec_groups_tokens(groups, k + 1, bound)) {
            (Some(ts), Some(rest)) => Some(seq![ts] + rest),
            _ => None,
        }
    } else {
        None
    }
}

/// Whether some part is a lone bar.
pub open spec fn has_bar(parts: Seq<Seq<char>>) -> bool {
    exists|k: int| 0 <= k < parts.len() && is_bar(#[trigger] parts[k])
}

/// The tokens that a list of parts writes.
///
/// Where a lone bar stands among the parts, the result is a single choice
/// between the groups that the bars divide. Otherwise each part gives one
/// token.
pub open spec fn spec_parts_to_token(parts: Seq<Seq<char>>) -> Option<Seq<TokenModel>>
    decreases total_len(parts), 3nat, 0nat,
{
    if has_bar(parts) {
        match spec_groups_tokens(spec_split_pipes_vec(parts), 0, total_len(parts)) {
            Some(branches) => Some(seq![TokenModel::Pipe { sub_groups: branches }]),
            None => None,
        }
    } else {
        spec_tokens_from(parts, 0)
    }
}

/// The tokens of one alternative: those of its parts.
pub open spec fn spec_branch(o: Seq<char>) -> Option<Seq<TokenModel>>
    decreases o.len(), 4nat, 0nat,
{
    match spec_split_to_parts(o) {
        Some(parts) => if total_len(parts) <= o.len() {
            spec_parts_to_token(parts)
        } else {
            None
        },
        None => None,
    }
}

/// The token lists of the alternatives `opts[k..]`.
pub open spec fn spec_branches_from(opts: Seq<Seq<char>>, k: int, bound: nat) -> Option<
    Seq<Seq<TokenModel>>,
>
    decreases bound, 5nat, opts.len() - k,
{
    if k < 0 || k >= opts.len() {
        Some(Seq::empty())
    } else if opts[k].len() <= bound {
        match (spec_branch(opts[k]), spec_branches_from(opts, k + 1, bound)) {
            (Some(ts), Some(rest)) => Some(seq![ts] + rest),
            _ => None,
        }
    } else {
        None
    }
}

/// The tokens of a pattern, or `None` where the pattern is malformed.
///
/// A pattern with a top-level bar is a single choice between its
/// alternatives. Any other pattern is the row of tokens of its parts.
pub open spec fn spec_tokenize(s: Seq<char>) -> Option<Seq<TokenModel>>
    decreases s.len(), 6nat, 0nat,
{
    if spec_find_pipes(s).len() > 0 {
        match spec_branches_from(spec_split_pipes(s), 0, s.len()) {
            Some(branches) => Some(seq![TokenModel::Pipe { sub_groups: branches }]),
            None => None,
        }
    } else {
        spec_branch(s)
    }
}

/// The value of a group token.
pub proof fn lemma_group_view(t: Token)
    ensures
        match t {
            Token::CaptureGroup { sub_groups, quantifier } => t@ == (TokenModel::CaptureGroup {
                sub_groups: tokens_view(sub_groups@),
                quantifier,
            }),
            Token::Pipe { sub_groups } => t@ == (TokenModel::Pipe {
                sub_groups: branches_view(sub_groups@),
            }),
            _ => true,
        },
{
    match t {
        Token::CaptureGroup { sub_groups, quantifier } => {
            match t@ {
                TokenModel::CaptureGroup { sub_groups: sg, quantifier: _ } => {
                    assert(sg =~= tokens_view(sub_groups@));
                },
                _ => {},
            }
        },
        Token::Pipe { sub_groups } => {
            match t@ {
                TokenModel::Pipe { sub_groups: sg } => {
                    assert forall|i: int| 0 <= i < sub_groups@.len() implies sg[i]
                        == branches_view(sub_groups@)[i] by {
                        assert(sg[i] =~= tokens_view(sub_groups@[i]@));
                    }
                    assert(sg =~= branches_view(sub_groups@));
                },
                _ => {},
            }
        },
        _ => {},
    }
}

/// Each stretch between cut points is no longer than the whole.
pub proof fn lemma_pieces_len(s: Seq<char>, from: int, cuts: Seq<int>, k: int)
    requires
        ascending_within(cuts, 0, s.len() as int),
        0 <= k <= cuts.len(),
        0 <= from <= s.len(),
        k < cuts.len() ==> from <= cuts[k],
    ensures
        forall|j: int|
            0 <= j < spec_pieces(s, from, cuts, k).len() ==> (#[trigger] spec_pieces(
                s,
                from,
                cuts,
                k,
            )[j]).len() <= s.len(),
    decreases cuts.len() - k,
{
    let all = spec_pieces(s, from, cuts, k);
    if k < cuts.len() {
        if k + 1 < cuts.len() {
            assert(cuts[k] < cuts[k + 1]);
        }
        lemma_pieces_len(s, cuts[k] + 1, cuts, k + 1);
        let rest = spec_pieces(s, cuts[k] + 1, cuts, k + 1);
        assert(all == seq![s.subrange(from, cuts[k])] + rest);
        assert forall|j: int| 0 <= j < all.len() implies (#[trigger] all[j]).len() <= s.len() by {
            if j > 0 {
                assert(all[j] == rest[j - 1]);
            }
        }
    }
}

/// Reads one part as a token.
///
/// Fails where the part is empty, begins with a character that cannot begin
/// an atom, holds an empty or unclosed group or class, or ends in something
/// that is no repetition.
pub fn token_from_chars(part: &Vec<char>) -> (r: Result<Token, RegexError>)
    ensures
        match r {
            Ok(t) => spec_token(part@) == Some(t@),
            Err(_) => spec_token(part@).is_none(),
        },
    decreases part@.len(), 0nat, 0nat,
{
    let n: usize = part.len();
    if n == 0 {
        return Err(RegexError::MalformedPattern);
    }
    let c: char = part[0];
    if c == '(' || c == '[' {
        let e: usize = match find_paren_match_chars(part, 0) {
            Some(e) => e,
            None => {
                return Err(RegexError::MalformedPattern);
            },
        };
        if e < 2 {
            return Err(RegexError::MalformedPattern);
        }
        let inner = slice_chars(part, 1, e);
        let rest = slice_chars(part, e + 1, n);
        let quantifier = match parse_quantifier(&rest) {
            Some(q) => q,
            None => {
                return Err(RegexError::MalformedPattern);
            },
        };
        if c == '(' {
            let sub_groups = match tokenize_chars(&inner) {
                Ok(ts) => ts,
                Err(e) => {
                    return Err(e);
                },
            };
            let t = Token::CaptureGroup { sub_groups, quantifier };
            proof {
                lemma_group_view(t);
            }
            Ok(t)
        } else {
            let class_options = character_class_chars(&inner);
            Ok(Token::CharacterClass { class_options, quantifier })
        }
    } else if c == '*' || c == '+' || c == '?' || c == '{' || c == '}' || c == ')' || c == ']' {
        Err(RegexError::MalformedPattern)
    } else if c == '\\' {
        if n < 2 {
            return Err(RegexError::MalformedPattern);
        }
        let rest = slice_chars(part, 2, n);
        match parse_quantifier(&rest) {
            Some(quantifier) => Ok(Token::Normal { token: escaped_symbol(part[1]), quantifier }),
            None => Err(RegexError::MalformedPattern),
        }
    } else {
        let rest = slice_chars(part, 1, n);
        match parse_quantifier(&rest) {
            Some(quantifier) => Ok(Token::Normal { token: plain_symbol(c), quantifier }),
            None => Err(RegexError::MalformedPattern),
        }
    }
}

/// Reads each part as a token.
pub fn tokens_from_parts(parts: &Vec<Vec<char>>) -> (r: Result<Vec<Token>, RegexError>)
    ensures
        match r {
            Ok(ts) => spec_tokens_from(views(parts@), 0) == Some(tokens_view(ts@)),
            Err(_) => spec_tokens_from(views(parts@), 0).is_none(),
        },
    decreases total_len(views(parts@)), 1nat, 0nat,
{
    let ghost ps = views(parts@);
    let mut out: Vec<Token> = Vec::new();
    let mut k: usize = 0;
    assert(tokens_view(out@) =~= Seq::<TokenModel>::empty());
    while k < parts.len()
        invariant
            ps == views(parts@),
            k <= parts.len(),
            match spec_tokens_from(ps, k as int) {
                Some(rest) => spec_tokens_from(ps, 0) == Some(tokens_view(out@) + rest),
                None => spec_tokens_from(ps, 0).is_none(),
            },
        decreases parts.len() - k,
    {
        proof {
            lemma_part_le_total(ps, k as int);
            assert(ps[k as int] == parts@[k as int]@);
        }
        match token_from_chars(&parts[k]) {
            Ok(t) => {
                proof {
                    match spec_tokens_from(ps, k as int + 1) {
                        Some(rest) => {
                            assert(tokens_view(out@.push(t)) =~= tokens_view(out@).push(t@));
                            assert(tokens_view(out@) + (seq![t@] + rest) =~= tokens_view(
                                out@,
                            ).push(t@) + rest);
                        },
                        None => {},
                    }
                }
                out.push(t);
            },
            Err(e) => {
                return Err(e);
            },
        }
        k += 1;
    }
    assert(tokens_view(out@) + Seq::<TokenModel>::empty() =~= tokens_view(out@));
    Ok(out)
}

/// Reads a list of parts as tokens; lone bars among them make a choice.
pub fn parts_to_token_chars(parts: &Vec<Vec<char>>) -> (r: Result<Vec<Token>, RegexError>)
    ensures
        match r {
            Ok(ts) => spec_parts_to_token(views(parts@)) == Some(tokens_view(ts@)),
            Err(_) => spec_parts_to_token(views(parts@)).is_none(),
        },
    decreases total_len(views(parts@)), 3nat, 0nat,
{
    let ghost ps = views(parts@);
    if !has_bar_part(parts) {
        return tokens_from_parts(parts);
    }
    let groups = split_pipes_vec_chars(parts);
    let ghost gs = spec_split_pipes_vec(ps);
    let ghost bound = total_len(ps);
    proof {
        lemma_groups_from(ps, 0, Seq::empty());
        lemma_total_len_from(ps, 0);
        assert(ps.subrange(0, ps.len() as int) == ps);
    }
    let mut sub_groups: Vec<Vec<Token>> = Vec::new();
    let mut k: usize = 0;
    assert(branches_view(sub_groups@) =~= Seq::<Seq<TokenModel>>::empty());
    while k < groups.len()
        invariant
            ps == views(parts@),
            has_bar(ps),
            gs == spec_split_pipes_vec(ps),
            bound == total_len(ps),
            groups@.len() == gs.len(),
            forall|j: int| 0 <= j < groups@.len() ==> views((#[trigger] groups@[j])@) == gs[j],
            forall|j: int| 0 <= j < gs.len() ==> total_len(#[trigger] gs[j]) <= bound,
            k <= groups.len(),
            match spec_groups_tokens(gs, k as int, bound) {
                Some(rest) => spec_groups_tokens(gs, 0, bound) == Some(
                    branches_view(sub_groups@) + rest,
                ),
                None => spec_groups_tokens(gs, 0, bound).is_none(),
            },
        decreases groups.len() - k,
    {
        assert(views(groups@[k as int]@) == gs[k as int]);
        match tokens_from_parts(&groups[k]) {
            Ok(ts) => {
                proof {
                    match spec_groups_tokens(gs, k as int + 1, bound) {
                        Some(rest) => {
                            assert(branches_view(sub_groups@.push(ts)) =~= branches_view(
                                sub_groups@,
                            ).push(tokens_view(ts@)));
                            assert(branches_view(sub_groups@) + (seq![tokens_view(ts@)] + rest)
                                =~= branches_view(sub_groups@).push(tokens_view(ts@)) + rest);
                        },
                        None => {},
                    }
                }
                sub_groups.push(ts);
            },
            Err(e) => {
                return Err(e);
            },
        }
        k += 1;
    }
    assert(branches_view(sub_groups@) + Seq::<Seq<TokenModel>>::empty() =~= branches_view(
        sub_groups@,
    ));
    let t = Token::Pipe { sub_groups };
    proof {
        lemma_group_view(t);
    }
    let mut out: Vec<Token> = Vec::new();
    out.push(t);
    assert(tokens_view(out@) =~= seq![t@]);
    Ok(out)
}

/// Reads one alternative: cuts it into parts and reads those.
pub fn branch_chars(o: &Vec<char>) -> (r: Result<Vec<Token>, RegexError>)
    ensures
        match r {
            Ok(ts) => spec_branch(o@) == Some(tokens_view(ts@)),
            Err(_) => spec_branch(o@).is_none(),
        },
    decreases o@.len(), 4nat, 0nat,
{
    match split_to_parts_chars(o) {
        Ok(parts) => {
            proof {
                lemma_parts_total_len(o@, 0);
            }
            parts_to_token_chars(&parts)
        },
        Err(e) => Err(e),
    }
}

/// Tokenizes a pattern given as characters.
pub fn tokenize_chars(s: &Vec<char>) -> (r: Result<Vec<Token>, RegexError>)
    ensures
        match r {
            Ok(ts) => spec_tokenize(s@) == Some(tokens_view(ts@)),
            Err(_) => spec_tokenize(s@).is_none(),
        },
    decreases s@.len(), 6nat, 0nat,
{
    let opts = split_pipes_chars(s);
    let ghost os = spec_split_pipes(s@);
    let ghost bound = s@.len();
    proof {
        lemma_pipe_scan_bounds(s@, 0, Seq::empty());
        lemma_pieces_len(s@, 0, spec_find_pipes(s@), 0);
    }
    if opts.len() <= 1 {
        assert(spec_find_pipes(s@).len() == 0) by {
            if spec_find_pipes(s@).len() > 0 {
                let cuts = spec_find_pipes(s@);
                let rest = spec_pieces(s@, cuts[0] + 1, cuts, 1);
                assert(os == seq![s@.subrange(0, cuts[0])] + rest);
                assert(rest.len() >= 1);
            }
        }
        return branch_chars(s);
    }
    assert(spec_find_pipes(s@).len() > 0) by {
        if spec_find_pipes(s@).len() == 0 {
            assert(os.len() == 1);
        }
    }
    let mut sub_groups: Vec<Vec<Token>> = Vec::new();
    let mut k: usize = 0;
    assert(branches_view(sub_groups@) =~= Seq::<Seq<TokenModel>>::empty());
    while k < opts.len()
        invariant
            spec_find_pipes(s@).len() > 0,
            os == spec_split_pipes(s@),
            os == views(opts@),
            bound == s@.len(),
            forall|j: int| 0 <= j < os.len() ==> (#[trigger] os[j]).len() <= bound,
            k <= opts.len(),
            match spec_branches_from(os, k as int, bound) {
                Some(rest) => spec_branches_from(os, 0, bound) == Some(
                    branches_view(sub_groups@) + rest,
                ),
                None => spec_branches_from(os, 0, bound).is_none(),
            },
        decreases opts.len() - k,
    {
        assert(os[k as int] == opts@[k as int]@);
        match branch_chars(&opts[k]) {
            Ok(ts) => {
                proof {
                    match spec_branches_from(os, k as int + 1, bound) {
                        Some(rest) => {
                            assert(branches_view(sub_groups@.push(ts)) =~= branches_view(
                                sub_groups@,
                            ).push(tokens_view(ts@)));
                            assert(branches_view(sub_groups@) + (seq![tokens_view(ts@)] + rest)
                                =~= branches_view(sub_groups@).push(tokens_view(ts@)) + rest);
                        },
                        None => {},
                    }
                }
                sub_groups.push(ts);
            },
            Err(e) => {
                return Err(e);
            },
        }
        k += 1;
    }
    assert(branches_view(sub_groups@) + Seq::<Seq<TokenModel>>::empty() =~= branches_view(
        sub_groups@,
    ));
    let t = Token::Pipe { sub_groups };
    proof {
        lemma_group_view(t);
    }
    let mut out: Vec<Token> = Vec::new();
    out.push(t);
    assert(tokens_view(out@) =~= seq![t@]);
    Ok(out)
}

} // verus!
