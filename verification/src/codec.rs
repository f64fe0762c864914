//! The profile-file codec. The file is a structured text document whose root
//! object holds one recognized field, `groups`, mapping each profile name to
//! an object with a `name` and an `email` string; unknown fields are ignored
//! on read and only `groups` is written.
//!
//! The writer escapes the quote, the backslash and every control character,
//! so its output is standard. The reader accepts the named and the
//! four-digit hexadecimal escapes, with two stated deviations from the
//! standard grammar: an astral character written as a surrogate pair of
//! escapes is rejected (written raw it is read fine), and the value of an
//! unknown field is passed over by matching quotes and brackets without
//! checking the text inside. A rejected file degrades to the empty mapping,
//! as any unreadable file does.
//!
//! Reading and writing the file itself happens outside this crate; these
//! functions turn the file's text into the profile mapping and back.

use vstd::prelude::*;
use crate::config::{UserConfig, UserView};
use crate::profiles::{map_of, Profiles};
use crate::utils::{is_ws, is_ws_char, str_chars, string_of_range};

verus! {

/// The recognized field of the root object.
pub open spec fn key_groups() -> Seq<char> {
    seq!['g', 'r', 'o', 'u', 'p', 's']
}

/// The user-name field of a stored identity.
pub open spec fn key_name() -> Seq<char> {
    seq!['n', 'a', 'm', 'e']
}

/// The email field of a stored identity.
pub open spec fn key_email() -> Seq<char> {
    seq!['e', 'm', 'a', 'i', 'l']
}

/// The first position at or after `pos` that holds no whitespace.
pub open spec fn sp_ws(s: Seq<char>, pos: int) -> int
    decreases s.len() - pos,
{
    if 0 <= pos < s.len() && is_ws(s[pos]) {
        sp_ws(s, pos + 1)
    } else {
        pos
    }
}

/// What a two-character escape in a quoted string denotes.
pub open spec fn unescape(c: char) -> Option<char> {
    if c == '"' {
        Some('"')
    } else if c == '\\' {
        Some('\\')
    } else if c == '/' {
        Some('/')
    } else if c == 'n' {
        Some('\n')
    } else if c == 't' {
        Some('\t')
    } else if c == 'r' {
        Some('\r')
    } else if c == 'b' {
        Some('\u{0008}')
    } else if c == 'f' {
        Some('\u{000C}')
    } else {
        None
    }
}

/// The value of one hexadecimal digit, written over code points.
pub open spec fn hex_val(c: char) -> Option<int> {
    let v = c as int;
    if 48 <= v && v <= 57 {
        Some(v - 48)
    } else if 97 <= v && v <= 102 {
        Some(v - 97 + 10)
    } else if 65 <= v && v <= 70 {
        Some(v - 65 + 10)
    } else {
        None
    }
}

/// The character that the four hexadecimal digits at `pos` denote; a
/// surrogate code point denotes no character on its own and is rejected.
pub open spec fn sp_hex4(s: Seq<char>, pos: int) -> Option<char> {
    if 0 <= pos && pos + 4 <= s.len() {
        match (hex_val(s[pos]), hex_val(s[pos + 1]), hex_val(s[pos + 2]), hex_val(s[pos + 3])) {
            (Some(a), Some(b), Some(c), Some(d)) => {
                let code = a * 4096 + b * 256 + c * 16 + d;
                if code < 0xD800 || code >= 0xE000 {
                    Some(code as char)
                } else {
                    None
                }
            },
            _ => None,
        }
    } else {
        None
    }
}

/// The content of a quoted string whose opening quote stands just before
/// `pos`, together with the position after the closing quote.
pub open spec fn sp_str_body(s: Seq<char>, pos: int) -> Option<(Seq<char>, int)>
    decreases s.len() - pos,
{
    if pos < 0 || pos >= s.len() {
        None
    } else if s[pos] == '"' {
        Some((Seq::<char>::empty(), pos + 1))
    } else if s[pos] == '\\' {
        if pos + 1 >= s.len() {
            None
        } else if s[pos + 1] == 'u' {
            match sp_hex4(s, pos + 2) {
                None => None,
                Some(c) => match sp_str_body(s, pos + 6) {
                    None => None,
                    Some(r) => Some((seq![c] + r.0, r.1)),
                },
            }
        } else {
            match unescape(s[pos + 1]) {
                None => None,
                Some(c) => match sp_str_body(s, pos + 2) {
                    None => None,
                    Some(r) => Some((seq![c] + r.0, r.1)),
                },
            }
        }
    } else {
        match sp_str_body(s, pos + 1) {
            None => None,
            Some(r) => Some((seq![s[pos]] + r.0, r.1)),
        }
    }
}

/// A quoted string starting at `pos`: its content and the position after
/// the closing quote.
pub open spec fn sp_string(s: Seq<char>, pos: int) -> Option<(Seq<char>, int)> {
    if 0 <= pos < s.len() && s[pos] == '"' {
        sp_str_body(s, pos + 1)
    } else {
        None
    }
}

proof fn lemma_sp_str_body_bounds(s: Seq<char>, pos: int)
    ensures
        sp_str_body(s, pos) is Some ==> pos < (sp_str_body(s, pos)->0).1 <= s.len(),
    decreases s.len() - pos,
{
    if 0 <= pos < s.len() {
        lemma_sp_str_body_bounds(s, pos + 1);
        if pos + 1 < s.len() {
            lemma_sp_str_body_bounds(s, pos + 2);
        }
        if pos + 5 < s.len() {
            lemma_sp_str_body_bounds(s, pos + 6);
        }
    }
}

proof fn lemma_sp_string_bounds(s: Seq<char>, pos: int)
    ensures
        sp_string(s, pos) is Some ==> pos + 2 <= (sp_string(s, pos)->0).1 <= s.len(),
{
    lemma_sp_str_body_bounds(s, pos + 1);
}

/// The position after one whole value starting at `pos`, found by walking
/// strings and bracket nesting; the value itself is not interpreted. Used to
/// pass over the fields that the codec does not recognize.
pub open spec fn sp_skip(s: Seq<char>, pos: int, depth: int, in_str: bool, esc: bool) -> Option<
    int,
>
    decreases s.len() - pos,
{
    if pos < 0 || pos >= s.len() {
        None
    } else {
        let c = s[pos];
        if in_str {
            if esc {
                sp_skip(s, pos + 1, depth, true, false)
            } else if c == '\\' {
                sp_skip(s, pos + 1, depth, true, true)
            } else if c == '"' {
                if depth == 0 {
                    Some(pos + 1)
                } else {
                    sp_skip(s, pos + 1, depth, false, false)
                }
            } else {
                sp_skip(s, pos + 1, depth, true, false)
            }
        } else if c == '"' {
            sp_skip(s, pos + 1, depth, true, false)
        } else if c == '{' || c == '[' {
            sp_skip(s, pos + 1, depth + 1, false, false)
        } else if c == '}' || c == ']' {
            if depth == 0 {
                Some(pos)
            } else if depth == 1 {
                Some(pos + 1)
            } else {
                sp_skip(s, pos + 1, depth - 1, false, false)
            }
        } else if depth == 0 && (c == ',' || is_ws(c)) {
            Some(pos)
        } else {
            sp_skip(s, pos + 1, depth, false, false)
        }
    }
}

/// The position after the unrecognized value starting at `pos`.
pub open spec fn sp_skip_value(s: Seq<char>, pos: int) -> Option<int> {
    sp_skip(s, pos, 0, false, false)
}

proof fn lemma_sp_skip_bounds(s: Seq<char>, pos: int, depth: int, in_str: bool, esc: bool)
    ensures
        sp_skip(s, pos, depth, in_str, esc) is Some ==> pos <= sp_skip(s, pos, depth, in_str, esc)->0
            <= s.len(),
    decreases s.len() - pos,
{
    if 0 <= pos < s.len() {
        lemma_sp_skip_bounds(s, pos + 1, depth, in_str, esc);
        lemma_sp_skip_bounds(s, pos + 1, depth, true, false);
        lemma_sp_skip_bounds(s, pos + 1, depth, true, true);
        lemma_sp_skip_bounds(s, pos + 1, depth, false, false);
        lemma_sp_skip_bounds(s, pos + 1, depth + 1, false, false);
        lemma_sp_skip_bounds(s, pos + 1, depth - 1, false, false);
    }
}

proof fn lemma_sp_ws_ge(s: Seq<char>, pos: int)
    ensures
        sp_ws(s, pos) >= pos,
        pos <= s.len() ==> sp_ws(s, pos) <= s.len(),
    decreases s.len() - pos,
{
    if 0 <= pos < s.len() && is_ws(s[pos]) {
        lemma_sp_ws_ge(s, pos + 1);
    }
}

/// The view of an optionally collected field.
pub open spec fn str_opt_view(o: Option<String>) -> Option<Seq<char>> {
    match o {
        Some(x) => Some(x@),
        None => None,
    }
}

/// The members of a stored identity's object, starting at the first key:
/// `name` and `email` must each appear exactly once as strings, anything
/// else is passed over, and the object ends with a closing brace.
pub open spec fn sp_user_members(
    s: Seq<char>,
    pos: int,
    name: Option<Seq<char>>,
    email: Option<Seq<char>>,
) -> Option<(UserView, int)>
    decreases s.len() - pos, 1int,
    via sp_user_members_dec
{
    match sp_string(s, pos) {
        None => None,
        Some(kr) => {
            let cpos = sp_ws(s, kr.1);
            if cpos >= s.len() || s[cpos] != ':' {
                None
            } else {
                let vpos = sp_ws(s, cpos + 1);
                if kr.0 == key_name() {
                    if name is Some {
                        None
                    } else {
                        match sp_string(s, vpos) {
                            None => None,
                            Some(vr) => sp_user_after_value(s, vr.1, Some(vr.0), email),
                        }
                    }
                } else if kr.0 == key_email() {
                    if email is Some {
                        None
                    } else {
                        match sp_string(s, vpos) {
                            None => None,
                            Some(vr) => sp_user_after_value(s, vr.1, name, Some(vr.0)),
                        }
                    }
                } else {
                    match sp_skip_value(s, vpos) {
                        None => None,
                        Some(e) => sp_user_after_value(s, e, name, email),
                    }
                }
            }
        },
    }
}

/// After one member's value: a comma continues with the next member, the
/// closing brace ends the object once both fields were seen.
pub open spec fn sp_user_after_value(
    s: Seq<char>,
    pos: int,
    name: Option<Seq<char>>,
    email: Option<Seq<char>>,
) -> Option<(UserView, int)>
    decreases s.len() - pos, 0int,
    via sp_user_after_value_dec
{
    let p = sp_ws(s, pos);
    if p >= s.len() {
        None
    } else if s[p] == ',' {
        sp_user_members(s, sp_ws(s, p + 1), name, email)
    } else if s[p] == '}' {
        match (name, email) {
            (Some(n), Some(e)) => Some((UserView { name: n, email: e }, p + 1)),
            _ => None,
        }
    } else {
        None
    }
}

#[via_fn]
proof fn sp_user_members_dec(
    s: Seq<char>,
    pos: int,
    name: Option<Seq<char>>,
    email: Option<Seq<char>>,
) {
    lemma_sp_string_bounds(s, pos);
    if sp_string(s, pos) is Some {
        let kr = sp_string(s, pos)->0;
        lemma_sp_ws_ge(s, kr.1);
        let cpos = sp_ws(s, kr.1);
        if cpos < s.len() && s[cpos] == ':' {
            lemma_sp_ws_ge(s, cpos + 1);
            let vpos = sp_ws(s, cpos + 1);
            lemma_sp_string_bounds(s, vpos);
            lemma_sp_skip_bounds(s, vpos, 0, false, false);
        }
    }
}

#[via_fn]
proof fn sp_user_after_value_dec(
    s: Seq<char>,
    pos: int,
    name: Option<Seq<char>>,
    email: Option<Seq<char>>,
) {
    lemma_sp_ws_ge(s, pos);
    let p = sp_ws(s, pos);
    lemma_sp_ws_ge(s, p + 1);
}

/// A stored identity's object starting at `pos`.
pub open spec fn sp_user_value(s: Seq<char>, pos: int) -> Option<(UserView, int)> {
    if 0 <= pos < s.len() && s[pos] == '{' {
        sp_user_members(s, sp_ws(s, pos + 1), None, None)
    } else {
        None
    }
}

proof fn lemma_sp_user_members_bounds(
    s: Seq<char>,
    pos: int,
    name: Option<Seq<char>>,
    email: Option<Seq<char>>,
)
    ensures
        sp_user_members(s, pos, name, email) is Some ==> pos < (sp_user_members(
            s,
            pos,
            name,
            email,
        )->0).1 <= s.len(),
    decreases s.len() - pos, 1int,
{
    lemma_sp_string_bounds(s, pos);
    if sp_string(s, pos) is Some {
        let kr = sp_string(s, pos)->0;
        lemma_sp_ws_ge(s, kr.1);
        let cpos = sp_ws(s, kr.1);
        if cpos < s.len() && s[cpos] == ':' {
            lemma_sp_ws_ge(s, cpos + 1);
            let vpos = sp_ws(s, cpos + 1);
            lemma_sp_string_bounds(s, vpos);
            lemma_sp_skip_bounds(s, vpos, 0, false, false);
            if sp_string(s, vpos) is Some {
                let vr = sp_string(s, vpos)->0;
                lemma_sp_user_after_value_bounds(s, vr.1, Some(vr.0), email);
                lemma_sp_user_after_value_bounds(s, vr.1, name, Some(vr.0));
            }
            if sp_skip_value(s, vpos) is Some {
                let e = sp_skip_value(s, vpos)->0;
                lemma_sp_user_after_value_bounds(s, e, name, email);
            }
        }
    }
}

proof fn lemma_sp_user_after_value_bounds(
    s: Seq<char>,
    pos: int,
    name: Option<Seq<char>>,
    email: Option<Seq<char>>,
)
    ensures
        sp_user_after_value(s, pos, name, email) is Some ==> pos < (sp_user_after_value(
            s,
            pos,
            name,
            email,
        )->0).1 <= s.len(),
    decreases s.len() - pos, 0int,
{
    lemma_sp_ws_ge(s, pos);
    let p = sp_ws(s, pos);
    if p < s.len() && s[p] == ',' {
        lemma_sp_ws_ge(s, p + 1);
        lemma_sp_user_members_bounds(s, sp_ws(s, p + 1), name, email);
    }
}

proof fn lemma_sp_user_value_bounds(s: Seq<char>, pos: int)
    ensures
        sp_user_value(s, pos) is Some ==> pos < (sp_user_value(s, pos)->0).1 <= s.len(),
{
    if 0 <= pos < s.len() && s[pos] == '{' {
        lemma_sp_ws_ge(s, pos + 1);
        lemma_sp_user_members_bounds(s, sp_ws(s, pos + 1), None, None);
    }
}

/// The members of the groups object, starting at the first key: each member
/// is a profile name with a stored identity's object; a name that repeats
/// keeps its later identity.
pub open spec fn sp_groups_members(s: Seq<char>, pos: int, acc: Map<Seq<char>, UserView>) -> Option<
    (Map<Seq<char>, UserView>, int),
>
    decreases s.len() - pos,
    via sp_groups_members_dec
{
    match sp_string(s, pos) {
        None => None,
        Some(kr) => {
            let cpos = sp_ws(s, kr.1);
            if cpos >= s.len() || s[cpos] != ':' {
                None
            } else {
                let vpos = sp_ws(s, cpos + 1);
                match sp_user_value(s, vpos) {
                    None => None,
                    Some(ur) => {
                        let acc2 = acc.insert(kr.0, ur.0);
                        let p = sp_ws(s, ur.1);
                        if p >= s.len() {
                            None
                        } else if s[p] == ',' {
                            sp_groups_members(s, sp_ws(s, p + 1), acc2)
                        } else if s[p] == '}' {
                            Some((acc2, p + 1))
                        } else {
                            None
                        }
                    },
                }
            }
        },
    }
}

#[via_fn]
proof fn sp_groups_members_dec(s: Seq<char>, pos: int, acc: Map<Seq<char>, UserView>) {
    lemma_sp_string_bounds(s, pos);
    if sp_string(s, pos) is Some {
        let kr = sp_string(s, pos)->0;
        lemma_sp_ws_ge(s, kr.1);
        let cpos = sp_ws(s, kr.1);
        if cpos < s.len() && s[cpos] == ':' {
            lemma_sp_ws_ge(s, cpos + 1);
            let vpos = sp_ws(s, cpos + 1);
            lemma_sp_user_value_bounds(s, vpos);
            if sp_user_value(s, vpos) is Some {
                let ur = sp_user_value(s, vpos)->0;
                lemma_sp_ws_ge(s, ur.1);
                let p = sp_ws(s, ur.1);
                lemma_sp_ws_ge(s, p + 1);
            }
        }
    }
}

/// The groups object starting at `pos`: the mapping it denotes and the
/// position after its closing brace.
pub open spec fn sp_groups_value(s: Seq<char>, pos: int) -> Option<(Map<Seq<char>, UserView>, int)> {
    if 0 <= pos < s.len() && s[pos] == '{' {
        let p = sp_ws(s, pos + 1);
        if p < s.len() && s[p] == '}' {
            Some((Map::<Seq<char>, UserView>::empty(), p + 1))
        } else {
            sp_groups_members(s, p, Map::<Seq<char>, UserView>::empty())
        }
    } else {
        None
    }
}

proof fn lemma_sp_groups_members_bounds(s: Seq<char>, pos: int, acc: Map<Seq<char>, UserView>)
    ensures
        sp_groups_members(s, pos, acc) is Some ==> pos < (sp_groups_members(s, pos, acc)->0).1
            <= s.len(),
    decreases s.len() - pos,
{
    lemma_sp_string_bounds(s, pos);
    if sp_string(s, pos) is Some {
        let kr = sp_string(s, pos)->0;
        lemma_sp_ws_ge(s, kr.1);
        let cpos = sp_ws(s, kr.1);
        if cpos < s.len() && s[cpos] == ':' {
            lemma_sp_ws_ge(s, cpos + 1);
            let vpos = sp_ws(s, cpos + 1);
            lemma_sp_user_value_bounds(s, vpos);
            if sp_user_value(s, vpos) is Some {
                let ur = sp_user_value(s, vpos)->0;
                lemma_sp_ws_ge(s, ur.1);
                let p = sp_ws(s, ur.1);
                if p < s.len() && s[p] == ',' {
                    lemma_sp_ws_ge(s, p + 1);
                    lemma_sp_groups_members_bounds(s, sp_ws(s, p + 1), acc.insert(kr.0, ur.0));
                }
            }
        }
    }
}

proof fn lemma_sp_groups_value_bounds(s: Seq<char>, pos: int)
    ensures
        sp_groups_value(s, pos) is Some ==> pos < (sp_groups_value(s, pos)->0).1 <= s.len(),
{
    if 0 <= pos < s.len() && s[pos] == '{' {
        lemma_sp_ws_ge(s, pos + 1);
        lemma_sp_groups_members_bounds(s, sp_ws(s, pos + 1), Map::<Seq<char>, UserView>::empty());
    }
}

/// The members of the root object, starting at the first key: the one
/// recognized field `groups` must appear exactly once, anything else is
/// passed over.
pub open spec fn sp_root_members(
    s: Seq<char>,
    pos: int,
    acc: Option<Map<Seq<char>, UserView>>,
) -> Option<(Option<Map<Seq<char>, UserView>>, int)>
    decreases s.len() - pos, 1int,
    via sp_root_members_dec
{
    match sp_string(s, pos) {
        None => None,
        Some(kr) => {
            let cpos = sp_ws(s, kr.1);
            if cpos >= s.len() || s[cpos] != ':' {
                None
            } else {
                let vpos = sp_ws(s, cpos + 1);
                if kr.0 == key_groups() {
                    if acc is Some {
                        None
                    } else {
                        match sp_groups_value(s, vpos) {
                            None => None,
                            Some(gr) => sp_root_after_value(s, gr.1, Some(gr.0)),
                        }
                    }
                } else {
                    match sp_skip_value(s, vpos) {
                        None => None,
                        Some(e) => sp_root_after_value(s, e, acc),
                    }
                }
            }
        },
    }
}

/// After one root member's value: a comma continues, the closing brace ends
/// the root object.
pub open spec fn sp_root_after_value(
    s: Seq<char>,
    pos: int,
    acc: Option<Map<Seq<char>, UserView>>,
) -> Option<(Option<Map<Seq<char>, UserView>>, int)>
    decreases s.len() - pos, 0int,
    via sp_root_after_value_dec
{
    let p = sp_ws(s, pos);
    if p >= s.len() {
        None
    } else if s[p] == ',' {
        sp_root_members(s, sp_ws(s, p + 1), acc)
    } else if s[p] == '}' {
        Some((acc, p + 1))
    } else {
        None
    }
}

#[via_fn]
proof fn sp_root_members_dec(s: Seq<char>, pos: int, acc: Option<Map<Seq<char>, UserView>>) {
    lemma_sp_string_bounds(s, pos);
    if sp_string(s, pos) is Some {
        let kr = sp_string(s, pos)->0;
        lemma_sp_ws_ge(s, kr.1);
        let cpos = sp_ws(s, kr.1);
        if cpos < s.len() && s[cpos] == ':' {
            lemma_sp_ws_ge(s, cpos + 1);
            let vpos = sp_ws(s, cpos + 1);
            lemma_sp_groups_value_bounds(s, vpos);
            lemma_sp_skip_bounds(s, vpos, 0, false, false);
        }
    }
}

#[via_fn]
proof fn sp_root_after_value_dec(s: Seq<char>, pos: int, acc: Option<Map<Seq<char>, UserView>>) {
    lemma_sp_ws_ge(s, pos);
    let p = sp_ws(s, pos);
    lemma_sp_ws_ge(s, p + 1);
}

/// The mapping that the whole profile file denotes, or nothing when the
/// text is not a well-formed profile file.
pub open spec fn sp_profiles(s: Seq<char>) -> Option<Map<Seq<char>, UserView>> {
    let p0 = sp_ws(s, 0);
    if p0 < s.len() && s[p0] == '{' {
        let p1 = sp_ws(s, p0 + 1);
        let parsed = if p1 < s.len() && s[p1] == '}' {
            Some((None::<Map<Seq<char>, UserView>>, p1 + 1))
        } else {
            sp_root_members(s, p1, None)
        };
        match parsed {
            None => None,
            Some(r) => {
                if sp_ws(s, r.1) == s.len() {
                    match r.0 {
                        Some(m) => Some(m),
                        None => None,
                    }
                } else {
                    None
                }
            },
        }
    } else {
        None
    }
}

/// The first position at or after `pos` that holds no whitespace.
fn skip_ws(cs: &Vec<char>, pos: usize) -> (r: usize)
    requires
        pos <= cs@.len(),
    ensures
        r as int == sp_ws(cs@, pos as int),
        pos <= r <= cs@.len(),
{
    let mut i: usize = pos;
    while i < cs.len() && is_ws_char(cs[i])
        invariant
            pos <= i <= cs@.len(),
            sp_ws(cs@, pos as int) == sp_ws(cs@, i as int),
        decreases cs@.len() - i,
    {
        i += 1;
    }
    i
}

/// Relies on char::from_u32: the character with exactly that code point,
/// present if and only if the code point is neither a surrogate nor above
/// the greatest one.
pub assume_specification[ char::from_u32 ](v: u32) -> (r: Option<char>)
    ensures
        r is Some <==> (v < 0xD800 || (0xE000 <= v && v <= 0x10FFFF)),
        r matches Some(c) ==> c == v as char,
;

/// The value of one hexadecimal digit.
fn hex_digit(c: char) -> (r: Option<u32>)
    ensures
        match r {
            Some(v) => hex_val(c) == Some(v as int) && v < 16,
            None => hex_val(c) is None,
        },
{
    let v = c as u32;
    if 48 <= v && v <= 57 {
        Some(v - 48)
    } else if 97 <= v && v <= 102 {
        Some(v - 97 + 10)
    } else if 65 <= v && v <= 70 {
        Some(v - 65 + 10)
    } else {
        None
    }
}

/// The character that the four hexadecimal digits at `pos` denote.
fn parse_hex4(cs: &Vec<char>, pos: usize) -> (r: Option<char>)
    requires
        pos <= cs@.len(),
    ensures
        r == sp_hex4(cs@, pos as int),
        r is Some ==> pos + 4 <= cs@.len(),
{
    if cs.len() < 4 || pos > cs.len() - 4 {
        return None;
    }
    let a = hex_digit(cs[pos]);
    let b = hex_digit(cs[pos + 1]);
    let c = hex_digit(cs[pos + 2]);
    let d = hex_digit(cs[pos + 3]);
    match (a, b, c, d) {
        (Some(a), Some(b), Some(c), Some(d)) => {
            let code: u32 = a * 4096 + b * 256 + c * 16 + d;
            if code < 0xD800 || code >= 0xE000 {
                match char::from_u32(code) {
                    Some(ch) => Some(ch),
                    None => {
                        proof {
                            assert(false);
                        }
                        None
                    },
                }
            } else {
                None
            }
        },
        _ => None,
    }
}

fn unescape_char(c: char) -> (r: Option<char>)
    ensures
        r == unescape(c),
{
    if c == '"' {
        Some('"')
    } else if c == '\\' {
        Some('\\')
    } else if c == '/' {
        Some('/')
    } else if c == 'n' {
        Some('\n')
    } else if c == 't' {
        Some('\t')
    } else if c == 'r' {
        Some('\r')
    } else if c == 'b' {
        Some('\u{0008}')
    } else if c == 'f' {
        Some('\u{000C}')
    } else {
        None
    }
}

/// A quoted string starting at `pos`: its content and the position after
/// the closing quote.
fn parse_string(cs: &Vec<char>, pos: usize) -> (r: Option<(String, usize)>)
    requires
        pos <= cs@.len(),
    ensures
        match r {
            Some(p) => sp_string(cs@, pos as int) == Some((p.0@, p.1 as int)) && pos < p.1
                <= cs@.len(),
            None => sp_string(cs@, pos as int) is None,
        },
{
    let ghost s = cs@;
    if pos >= cs.len() || cs[pos] != '"' {
        return None;
    }
    let mut i: usize = pos + 1;
    let mut out = String::new();
    while i < cs.len()
        invariant
            pos < i <= s.len(),
            cs@ == s,
            s[pos as int] == '"',
            sp_str_body(s, i as int) is Some ==> sp_str_body(s, pos + 1) == Some(
                (
                    out@ + (sp_str_body(s, i as int)->0).0,
                    (sp_str_body(s, i as int)->0).1,
                ),
            ),
            sp_str_body(s, i as int) is None ==> sp_str_body(s, pos + 1) is None,
        decreases s.len() - i,
    {
        let c = cs[i];
        if c == '"' {
            proof {
                assert(sp_str_body(s, i as int) == Some((Seq::<char>::empty(), i + 1)));
                assert(out@ + Seq::<char>::empty() =~= out@);
            }
            return Some((out, i + 1));
        } else if c == '\\' {
            if i + 1 >= cs.len() {
                return None;
            }
            if cs[i + 1] == 'u' {
                match parse_hex4(cs, i + 2) {
                    None => {
                        return None;
                    },
                    Some(ch) => {
                        proof {
                            if sp_str_body(s, i + 6) is Some {
                                let rest = (sp_str_body(s, i + 6)->0).0;
                                assert(sp_str_body(s, i as int) == Some(
                                    (seq![ch] + rest, (sp_str_body(s, i + 6)->0).1),
                                ));
                                assert(out@ + (seq![ch] + rest) =~= out@.push(ch) + rest);
                            }
                        }
                        out.push(ch);
                        i += 6;
                    },
                }
            } else {
                match unescape_char(cs[i + 1]) {
                    None => {
                        return None;
                    },
                    Some(ch) => {
                        proof {
                            if sp_str_body(s, i + 2) is Some {
                                let rest = (sp_str_body(s, i + 2)->0).0;
                                assert(sp_str_body(s, i as int) == Some(
                                    (seq![ch] + rest, (sp_str_body(s, i + 2)->0).1),
                                ));
                                assert(out@ + (seq![ch] + rest) =~= out@.push(ch) + rest);
                            }
                        }
                        out.push(ch);
                        i += 2;
                    },
                }
            }
        } else {
            proof {
                if sp_str_body(s, i + 1) is Some {
                    let rest = (sp_str_body(s, i + 1)->0).0;
                    assert(sp_str_body(s, i as int) == Some(
                        (seq![c] + rest, (sp_str_body(s, i + 1)->0).1),
                    ));
                    assert(out@ + (seq![c] + rest) =~= out@.push(c) + rest);
                }
            }
            out.push(c);
            i += 1;
        }
    }
    None
}

/// The position after the unrecognized value starting at `pos`.
fn skip_value(cs: &Vec<char>, pos: usize) -> (r: Option<usize>)
    requires
        pos <= cs@.len(),
    ensures
        match r {
            Some(e) => sp_skip_value(cs@, pos as int) == Some(e as int) && pos <= e <= cs@.len(),
            None => sp_skip_value(cs@, pos as int) is None,
        },
{
    let ghost s = cs@;
    let mut i: usize = pos;
    let mut depth: usize = 0;
    let mut in_str = false;
    let mut esc = false;
    while i < cs.len()
        invariant
            pos <= i <= s.len(),
            cs@ == s,
            depth <= i,
            !in_str ==> !esc,
            sp_skip_value(s, pos as int) == sp_skip(s, i as int, depth as int, in_str, esc),
        decreases s.len() - i,
    {
        let ghost gi = i as int;
        let ghost gd = depth as int;
        let ghost g_in = in_str;
        let ghost g_esc = esc;
        let c = cs[i];
        if in_str {
            if esc {
                esc = false;
                i += 1;
            } else if c == '\\' {
                esc = true;
                i += 1;
            } else if c == '"' {
                if depth == 0 {
                    return Some(i + 1);
                }
                in_str = false;
                i += 1;
            } else {
                i += 1;
            }
        } else if c == '"' {
            in_str = true;
            i += 1;
        } else if c == '{' || c == '[' {
            depth += 1;
            i += 1;
        } else if c == '}' || c == ']' {
            if depth == 0 {
                return Some(i);
            } else if depth == 1 {
                return Some(i + 1);
            }
            depth -= 1;
            i += 1;
        } else if depth == 0 && (c == ',' || is_ws_char(c)) {
            return Some(i);
        } else {
            i += 1;
        }
        proof {
            assert(sp_skip(s, gi, gd, g_in, g_esc) == sp_skip(
                s,
                i as int,
                depth as int,
                in_str,
                esc,
            ));
        }
    }
    None
}

/// The view of an optionally collected profile mapping.
pub open spec fn profiles_opt_view(o: Option<Profiles>) -> Option<Map<Seq<char>, UserView>> {
    match o {
        Some(pm) => Some(pm@),
        None => None,
    }
}

/// A stored identity's object starting at `pos`.
fn parse_user_value(cs: &Vec<char>, pos: usize) -> (r: Option<(UserConfig, usize)>)
    requires
        pos <= cs@.len(),
    ensures
        match r {
            Some(p) => sp_user_value(cs@, pos as int) == Some((p.0@, p.1 as int)) && pos < p.1
                <= cs@.len(),
            None => sp_user_value(cs@, pos as int) is None,
        },
{
    let ghost s = cs@;
    if pos >= cs.len() || cs[pos] != '{' {
        return None;
    }
    let kn: String = "name".to_owned();
    let ke: String = "email".to_owned();
    proof {
        reveal_strlit("name");
        reveal_strlit("email");
        assert(kn@ =~= key_name());
        assert(ke@ =~= key_email());
    }
    let mut mpos: usize = skip_ws(cs, pos + 1);
    let mut name_o: Option<String> = None;
    let mut email_o: Option<String> = None;
    loop
        invariant
            pos < mpos <= s.len(),
            cs@ == s,
            pos < s.len() && s[pos as int] == '{',
            kn@ == key_name(),
            ke@ == key_email(),
            sp_user_value(s, pos as int) == sp_user_members(
                s,
                mpos as int,
                str_opt_view(name_o),
                str_opt_view(email_o),
            ),
        decreases s.len() - mpos,
    {
        let parsed_key = match parse_string(cs, mpos) {
            None => {
                return None;
            },
            Some(p) => p,
        };
        let key = parsed_key.0;
        let kend = parsed_key.1;
        let cpos = skip_ws(cs, kend);
        if cpos >= cs.len() || cs[cpos] != ':' {
            return None;
        }
        let vpos = skip_ws(cs, cpos + 1);
        let vend: usize;
        if key == kn {
            if name_o.is_some() {
                return None;
            }
            match parse_string(cs, vpos) {
                None => {
                    return None;
                },
                Some(vp) => {
                    name_o = Some(vp.0);
                    vend = vp.1;
                },
            }
        } else if key == ke {
            if email_o.is_some() {
                return None;
            }
            match parse_string(cs, vpos) {
                None => {
                    return None;
                },
                Some(vp) => {
                    email_o = Some(vp.0);
                    vend = vp.1;
                },
            }
        } else {
            match skip_value(cs, vpos) {
                None => {
                    return None;
                },
                Some(e) => {
                    vend = e;
                },
            }
        }
        let p = skip_ws(cs, vend);
        if p >= cs.len() {
            return None;
        }
        if cs[p] == ',' {
            mpos = skip_ws(cs, p + 1);
        } else if cs[p] == '}' {
            match (name_o, email_o) {
                (Some(n), Some(e)) => {
                    return Some((UserConfig { name: n, email: e }, p + 1));
                },
                _ => {
                    return None;
                },
            }
        } else {
            return None;
        }
    }
}

/// The groups object starting at `pos`.
fn parse_groups_value(cs: &Vec<char>, pos: usize) -> (r: Option<(Profiles, usize)>)
    requires
        pos <= cs@.len(),
    ensures
        match r {
            Some(p) => p.0.wf() && sp_groups_value(cs@, pos as int) == Some((p.0@, p.1 as int))
                && pos < p.1 <= cs@.len(),
            None => sp_groups_value(cs@, pos as int) is None,
        },
{
    let ghost s = cs@;
    if pos >= cs.len() || cs[pos] != '{' {
        return None;
    }
    let p0 = skip_ws(cs, pos + 1);
    if p0 < cs.len() && cs[p0] == '}' {
        return Some((Profiles::new(), p0 + 1));
    }
    let mut pm = Profiles::new();
    let mut mpos: usize = p0;
    loop
        invariant
            pos < mpos <= s.len(),
            cs@ == s,
            pm.wf(),
            sp_groups_value(s, pos as int) == sp_groups_members(s, mpos as int, pm@),
        decreases s.len() - mpos,
    {
        let parsed_key = match parse_string(cs, mpos) {
            None => {
                return None;
            },
            Some(p) => p,
        };
        let key = parsed_key.0;
        let kend = parsed_key.1;
        let cpos = skip_ws(cs, kend);
        if cpos >= cs.len() || cs[cpos] != ':' {
            return None;
        }
        let vpos = skip_ws(cs, cpos + 1);
        let parsed_user = match parse_user_value(cs, vpos) {
            None => {
                return None;
            },
            Some(p) => p,
        };
        let vend = parsed_user.1;
        pm.insert(&key, parsed_user.0);
        let p = skip_ws(cs, vend);
        if p >= cs.len() {
            return None;
        }
        if cs[p] == ',' {
            mpos = skip_ws(cs, p + 1);
        } else if cs[p] == '}' {
            return Some((pm, p + 1));
        } else {
            return None;
        }
    }
}

/// The profile mapping that the file's text denotes, or nothing when the
/// text is malformed. An absent file is the caller's concern and never
/// reaches this function.
pub fn load_profiles(s: &str) -> (r: Option<Profiles>)
    ensures
        match r {
            Some(pm) => pm.wf() && sp_profiles(s@) == Some(pm@),
            None => sp_profiles(s@) is None,
        },
{
    let cs = str_chars(s);
    let ghost sv = cs@;
    let p0 = skip_ws(&cs, 0);
    if p0 >= cs.len() || cs[p0] != '{' {
        return None;
    }
    let p1 = skip_ws(&cs, p0 + 1);
    if p1 < cs.len() && cs[p1] == '}' {
        return None;
    }
    let kg: String = "groups".to_owned();
    proof {
        reveal_strlit("groups");
        assert(kg@ =~= key_groups());
    }
    let mut acc: Option<Profiles> = None;
    let mut mpos: usize = p1;
    loop
        invariant
            mpos <= sv.len(),
            cs@ == sv,
            sv == s@,
            p0 < sv.len() && sv[p0 as int] == '{',
            p0 as int == sp_ws(sv, 0),
            p1 as int == sp_ws(sv, p0 + 1),
            !(p1 < sv.len() && sv[p1 as int] == '}'),
            kg@ == key_groups(),
            match acc {
                Some(pm) => pm.wf(),
                None => true,
            },
            sp_root_members(sv, p1 as int, None::<Map<Seq<char>, UserView>>) == sp_root_members(
                sv,
                mpos as int,
                profiles_opt_view(acc),
            ),
        decreases sv.len() - mpos,
    {
        let parsed_key = match parse_string(&cs, mpos) {
            None => {
                return None;
            },
            Some(p) => p,
        };
        let key = parsed_key.0;
        let kend = parsed_key.1;
        let cpos = skip_ws(&cs, kend);
        if cpos >= cs.len() || cs[cpos] != ':' {
            return None;
        }
        let vpos = skip_ws(&cs, cpos + 1);
        let vend: usize;
        if key == kg {
            if acc.is_some() {
                return None;
            }
            match parse_groups_value(&cs, vpos) {
                None => {
                    return None;
                },
                Some(gp) => {
                    vend = gp.1;
                    acc = Some(gp.0);
                },
            }
        } else {
            match skip_value(&cs, vpos) {
                None => {
                    return None;
                },
                Some(e) => {
                    vend = e;
                },
            }
        }
        let p = skip_ws(&cs, vend);
        if p >= cs.len() {
            return None;
        }
        if cs[p] == ',' {
            mpos = skip_ws(&cs, p + 1);
        } else if cs[p] == '}' {
            let tail = skip_ws(&cs, p + 1);
            if tail == cs.len() {
                match acc {
                    Some(pm) => {
                        return Some(pm);
                    },
                    None => {
                        return None;
                    },
                }
            } else {
                return None;
            }
        } else {
            return None;
        }
    }
}

/// The lowercase hexadecimal digit for a value below sixteen.
pub open spec fn hex_digit_char(v: int) -> char {
    if v < 10 {
        ((48 + v) as u8) as char
    } else {
        ((87 + v) as u8) as char
    }
}

/// How one character is written inside a quoted string: the quote, the
/// backslash and five common control characters take a two-character
/// escape, the remaining control characters take a four-digit hexadecimal
/// escape, everything else stands as itself.
pub open spec fn esc_char(c: char) -> Seq<char> {
    if c == '"' {
        seq!['\\', '"']
    } else if c == '\\' {
        seq!['\\', '\\']
    } else if c == '\n' {
        seq!['\\', 'n']
    } else if c == '\t' {
        seq!['\\', 't']
    } else if c == '\r' {
        seq!['\\', 'r']
    } else if c == '\u{0008}' {
        seq!['\\', 'b']
    } else if c == '\u{000C}' {
        seq!['\\', 'f']
    } else if (c as int) < 32 {
        seq!['\\', 'u', '0', '0', hex_digit_char((c as int) / 16), hex_digit_char((c as int) % 16)]
    } else {
        seq![c]
    }
}

proof fn lemma_hex_digit_char(v: int)
    requires
        0 <= v < 16,
    ensures
        hex_val(hex_digit_char(v)) == Some(v),
{
    if v < 10 {
        assert((((48 + v) as u8) as char) as int == 48 + v);
    } else {
        assert((((87 + v) as u8) as char) as int == 87 + v);
    }
}

/// The written form of a string's content.
pub open spec fn esc_string(s: Seq<char>) -> Seq<char>
    decreases s.len(),
{
    if s.len() == 0 {
        Seq::<char>::empty()
    } else {
        esc_char(s[0]) + esc_string(s.drop_first())
    }
}

/// The written form of a whole string, quotes included.
pub open spec fn quoted(s: Seq<char>) -> Seq<char> {
    seq!['"'] + esc_string(s) + seq!['"']
}

/// The written form of one stored identity.
pub open spec fn ser_user(u: UserView) -> Seq<char> {
    seq!['{'] + quoted(key_name()) + seq![':'] + quoted(u.name) + seq![','] + quoted(key_email())
        + seq![':'] + quoted(u.email) + seq!['}']
}

/// The written form of one groups entry.
pub open spec fn ser_entry(e: (Seq<char>, UserView)) -> Seq<char> {
    quoted(e.0) + seq![':'] + ser_user(e.1)
}

/// The written form of the groups entries, comma-separated.
pub open spec fn ser_entries(entries: Seq<(Seq<char>, UserView)>) -> Seq<char>
    decreases entries.len(),
{
    if entries.len() == 0 {
        Seq::<char>::empty()
    } else if entries.len() == 1 {
        ser_entry(entries[0])
    } else {
        ser_entry(entries[0]) + seq![','] + ser_entries(entries.drop_first())
    }
}

/// The written form of the whole profile file.
pub open spec fn ser_profiles(entries: Seq<(Seq<char>, UserView)>) -> Seq<char> {
    seq!['{'] + quoted(key_groups()) + seq![':'] + seq!['{'] + ser_entries(entries) + seq!['}']
        + seq!['}']
}

proof fn lemma_esc_string_push(s: Seq<char>, c: char)
    ensures
        esc_string(s.push(c)) == esc_string(s) + esc_char(c),
    decreases s.len(),
{
    if s.len() == 0 {
        assert(s.push(c)[0] == c);
        assert(s.push(c).drop_first() =~= Seq::<char>::empty());
        assert(esc_char(c) + esc_string(Seq::<char>::empty()) =~= esc_char(c));
        assert(esc_string(s.push(c)) =~= esc_char(c));
        assert(esc_string(s) + esc_char(c) =~= esc_char(c));
    } else {
        lemma_esc_string_push(s.drop_first(), c);
        assert(s.push(c)[0] == s[0]);
        assert(s.push(c).drop_first() =~= s.drop_first().push(c));
        assert(esc_char(s[0]) + (esc_string(s.drop_first()) + esc_char(c)) =~= (esc_char(s[0])
            + esc_string(s.drop_first())) + esc_char(c));
    }
}

/// The lowercase hexadecimal digit for a value below sixteen.
fn hex_digit_of(v: u32) -> (r: char)
    requires
        v < 16,
    ensures
        r == hex_digit_char(v as int),
{
    if v < 10 {
        (48 + v as u8) as char
    } else {
        (87 + v as u8) as char
    }
}

/// Append the written form of one character to `out`.
fn push_escaped_char(out: &mut String, c: char)
    ensures
        final(out)@ == old(out)@ + esc_char(c),
{
    let ghost base = out@;
    if c == '"' {
        out.push('\\');
        out.push('"');
    } else if c == '\\' {
        out.push('\\');
        out.push('\\');
    } else if c == '\n' {
        out.push('\\');
        out.push('n');
    } else if c == '\t' {
        out.push('\\');
        out.push('t');
    } else if c == '\r' {
        out.push('\\');
        out.push('r');
    } else if c == '\u{0008}' {
        out.push('\\');
        out.push('b');
    } else if c == '\u{000C}' {
        out.push('\\');
        out.push('f');
    } else if (c as u32) < 32 {
        out.push('\\');
        out.push('u');
        out.push('0');
        out.push('0');
        out.push(hex_digit_of((c as u32) / 16));
        out.push(hex_digit_of((c as u32) % 16));
        proof {
            assert(c as u32 == c as int);
            assert((c as u32) / 16 == (c as int) / 16);
            assert((c as u32) % 16 == (c as int) % 16);
        }
    } else {
        out.push(c);
    }
    proof {
        assert(out@ =~= base + esc_char(c));
    }
}

/// Append the written form of `s`'s content to `out`.
fn push_escaped(out: &mut String, s: &str)
    ensures
        final(out)@ == old(out)@ + esc_string(s@),
{
    let cs = str_chars(s);
    let ghost base = out@;
    let mut i: usize = 0;
    proof {
        assert(s@.take(0) =~= Seq::<char>::empty());
        assert(base + esc_string(s@.take(0)) =~= base);
    }
    while i < cs.len()
        invariant
            i <= cs@.len(),
            cs@ == s@,
            out@ == base + esc_string(s@.take(i as int)),
        decreases cs@.len() - i,
    {
        let ghost done = s@.take(i as int);
        let c = cs[i];
        push_escaped_char(out, c);
        proof {
            lemma_esc_string_push(done, c);
            assert(s@.take(i + 1) =~= done.push(c));
            assert(out@ =~= base + esc_string(done.push(c)));
        }
        i += 1;
    }
    proof {
        assert(s@.take(cs@.len() as int) =~= s@);
    }
}

/// Append the written form of `s`, quotes included, to `out`.
fn push_quoted(out: &mut String, s: &str)
    ensures
        final(out)@ == old(out)@ + quoted(s@),
{
    let ghost base = out@;
    out.push('"');
    push_escaped(out, s);
    out.push('"');
    proof {
        assert(base.push('"') =~= base + seq!['"']);
        assert(out@ =~= base + quoted(s@));
    }
}

/// Append the written form of one stored identity to `out`.
fn push_user(out: &mut String, u: &UserConfig)
    ensures
        final(out)@ == old(out)@ + ser_user(u@),
{
    let ghost base = out@;
    proof {
        reveal_strlit("name");
        reveal_strlit("email");
        assert("name"@ =~= key_name());
        assert("email"@ =~= key_email());
    }
    out.push('{');
    push_quoted(out, "name");
    out.push(':');
    push_quoted(out, u.name.as_str());
    out.push(',');
    push_quoted(out, "email");
    out.push(':');
    push_quoted(out, u.email.as_str());
    out.push('}');
    proof {
        assert(out@ =~= base + ser_user(u@));
    }
}

/// Append the written form of the entries from position `i` on to `out`.
fn push_entries(out: &mut String, pm: &Profiles, i: usize)
    requires
        i <= pm.entries_seq().len(),
    ensures
        final(out)@ == old(out)@ + ser_entries(pm.entries_seq().skip(i as int)),
    decreases pm.entries_seq().len() - i,
{
    let ghost entries = pm.entries_seq();
    let ghost base = out@;
    let count = pm.entry_count();
    if i == count {
        proof {
            assert(entries.skip(i as int) =~= Seq::<(Seq<char>, UserView)>::empty());
            assert(base + ser_entries(entries.skip(i as int)) =~= base);
        }
        return ;
    }
    push_quoted(out, pm.key_at(i).as_str());
    out.push(':');
    push_user(out, pm.user_at(i));
    proof {
        assert(entries.skip(i as int)[0] == entries[i as int]);
        assert(out@ =~= base + ser_entry(entries[i as int]));
    }
    if i + 1 < count {
        out.push(',');
        push_entries(out, pm, i + 1);
        proof {
            assert(entries.skip(i as int).drop_first() =~= entries.skip(i + 1));
            assert(entries.skip(i as int).len() >= 2);
            assert(ser_entries(entries.skip(i as int)) == ser_entry(entries[i as int]) + seq![',']
                + ser_entries(entries.skip(i + 1)));
            assert(out@ =~= base + ser_entries(entries.skip(i as int)));
        }
    } else {
        proof {
            assert(entries.skip(i as int).len() == 1);
            assert(ser_entries(entries.skip(i as int)) == ser_entry(entries[i as int]));
        }
    }
}

/// The written form of the whole profile mapping, ready to be stored as the
/// profile file's new content.
pub fn save_profiles(pm: &Profiles) -> (r: String)
    ensures
        r@ == ser_profiles(pm.entries_seq()),
{
    let mut out = String::new();
    proof {
        reveal_strlit("groups");
        assert("groups"@ =~= key_groups());
    }
    out.push('{');
    push_quoted(&mut out, "groups");
    out.push(':');
    out.push('{');
    push_entries(&mut out, pm, 0);
    out.push('}');
    out.push('}');
    proof {
        assert(pm.entries_seq().skip(0) =~= pm.entries_seq());
        assert(out@ =~= ser_profiles(pm.entries_seq()));
    }
    out
}

proof fn lemma_esc_char_cases(c: char)
    ensures
        esc_char(c).len() == 1 || esc_char(c).len() == 2 || esc_char(c).len() == 6,
        esc_char(c).len() == 1 ==> esc_char(c) == seq![c] && c != '"' && c != '\\',
        esc_char(c).len() == 2 ==> esc_char(c)[0] == '\\' && esc_char(c)[1] != 'u' && unescape(
            esc_char(c)[1],
        ) == Some(c),
        esc_char(c).len() == 6 ==> esc_char(c)[0] == '\\' && esc_char(c)[1] == 'u',
        esc_char(c).len() == 6 ==> hex_val(esc_char(c)[2]) == Some(0int) && hex_val(
            esc_char(c)[3],
        ) == Some(0int),
        esc_char(c).len() == 6 ==> hex_val(esc_char(c)[4]) == Some((c as int) / 16) && hex_val(
            esc_char(c)[5],
        ) == Some((c as int) % 16),
        esc_char(c).len() == 6 ==> 0 <= (c as int) && (c as int) < 32,
{
    if esc_char(c).len() == 6 {
        lemma_hex_digit_char(0);
        lemma_hex_digit_char(c as int / 16);
        lemma_hex_digit_char(c as int % 16);
    }
}

proof fn lemma_sp_str_body_ser(sv: Seq<char>, t: Seq<char>, pos: int)
    requires
        0 <= pos,
        pos + esc_string(sv).len() + 1 <= t.len(),
        t.subrange(pos, pos + esc_string(sv).len()) == esc_string(sv),
        t[pos + esc_string(sv).len()] == '"',
    ensures
        sp_str_body(t, pos) == Some((sv, pos + esc_string(sv).len() + 1)),
    decreases sv.len(),
{
    let es = esc_string(sv);
    assert forall|k: int| 0 <= k < es.len() implies t[pos + k] == es[k] by {
        assert(t.subrange(pos, pos + es.len())[k] == es[k]);
    };
    if sv.len() == 0 {
        assert(t[pos] == '"');
        assert(sp_str_body(t, pos) == Some((Seq::<char>::empty(), pos + 1)));
        assert(Seq::<char>::empty() =~= sv);
    } else {
        let c = sv[0];
        let rest = sv.drop_first();
        let ec = esc_char(c);
        let er = esc_string(rest);
        lemma_esc_char_cases(c);
        assert(es == ec + er);
        assert forall|k: int| 0 <= k < er.len() implies t[pos + ec.len() + k] == er[k] by {
            assert(es[ec.len() + k] == er[k]);
            assert(t[pos + (ec.len() + k)] == es[ec.len() + k]);
        };
        assert(t.subrange(pos + ec.len(), pos + ec.len() + er.len()) =~= er);
        assert(t[pos + ec.len() + er.len()] == '"');
        assert(es[0] == ec[0]);
        assert(t[pos + 0] == es[0]);
        if ec.len() == 1 {
            assert(t[pos] == c);
            assert(c != '"' && c != '\\');
            lemma_sp_str_body_ser(rest, t, pos + 1);
            assert(sp_str_body(t, pos + 1) == Some((rest, pos + 1 + er.len() + 1)));
            assert(sp_str_body(t, pos) == Some((seq![c] + rest, pos + 1 + er.len() + 1)));
            assert(seq![c] + rest =~= sv);
        } else if ec.len() == 2 {
            assert(t[pos] == '\\');
            assert(es[1] == ec[1]);
            assert(t[pos + 1] == es[1]);
            assert(t[pos + 1] == ec[1]);
            assert(t[pos + 1] != 'u');
            assert(unescape(ec[1]) == Some(c));
            lemma_sp_str_body_ser(rest, t, pos + 2);
            assert(sp_str_body(t, pos + 2) == Some((rest, pos + 2 + er.len() + 1)));
            assert(pos + 1 < t.len());
            assert(sp_str_body(t, pos) == Some((seq![c] + rest, pos + 2 + er.len() + 1)));
            assert(seq![c] + rest =~= sv);
        } else {
            assert(ec.len() == 6);
            assert(t[pos] == '\\');
            assert(es[1] == ec[1]);
            assert(t[pos + 1] == es[1]);
            assert(t[pos + 1] == 'u');
            assert(es[2] == ec[2]);
            assert(t[pos + 2] == es[2]);
            assert(es[3] == ec[3]);
            assert(t[pos + 3] == es[3]);
            assert(es[4] == ec[4]);
            assert(t[pos + 4] == es[4]);
            assert(es[5] == ec[5]);
            assert(t[pos + 5] == es[5]);
            assert(hex_val(t[pos + 2]) == Some(0int));
            assert(hex_val(t[pos + 3]) == Some(0int));
            assert(hex_val(t[pos + 4]) == Some(c as int / 16));
            assert(hex_val(t[pos + 5]) == Some(c as int % 16));
            assert(pos + 2 + 4 <= t.len());
            vstd::arithmetic::div_mod::lemma_fundamental_div_mod(c as int, 16);
            let code = 0int * 4096 + 0int * 256 + (c as int / 16) * 16 + c as int % 16;
            assert(code == c as int);
            assert(0 <= code < 32);
            assert(sp_hex4(t, pos + 2) == Some(code as char));
            assert((code as char) == c);
            lemma_sp_str_body_ser(rest, t, pos + 6);
            assert(sp_str_body(t, pos + 6) == Some((rest, pos + 6 + er.len() + 1)));
            assert(pos + 1 < t.len());
            assert(sp_str_body(t, pos) == Some((seq![c] + rest, pos + 6 + er.len() + 1)));
            assert(seq![c] + rest =~= sv);
        }
    }
}

proof fn lemma_sp_string_quoted(sv: Seq<char>, t: Seq<char>, pos: int)
    requires
        0 <= pos,
        pos + quoted(sv).len() <= t.len(),
        t.subrange(pos, pos + quoted(sv).len()) == quoted(sv),
    ensures
        sp_string(t, pos) == Some((sv, pos + quoted(sv).len())),
{
    let q = quoted(sv);
    let es = esc_string(sv);
    assert(q.len() == es.len() + 2);
    assert forall|k: int| 0 <= k < q.len() implies t[pos + k] == q[k] by {
        assert(t.subrange(pos, pos + q.len())[k] == q[k]);
    };
    assert(q[0] == '"');
    assert(t[pos] == '"');
    assert forall|k: int| 0 <= k < es.len() implies t[pos + 1 + k] == es[k] by {
        assert(q[1 + k] == es[k]);
        assert(t[pos + (1 + k)] == q[1 + k]);
    };
    assert(t.subrange(pos + 1, pos + 1 + es.len()) =~= es);
    assert(q[1 + es.len() as int] == '"');
    assert(t[pos + 1 + es.len()] == '"');
    lemma_sp_str_body_ser(sv, t, pos + 1);
}

#[verifier::rlimit(80)]
proof fn lemma_parse_user_ser(u: UserView, t: Seq<char>, pos: int)
    requires
        0 <= pos,
        pos + ser_user(u).len() <= t.len(),
        t.subrange(pos, pos + ser_user(u).len()) == ser_user(u),
    ensures
        sp_user_value(t, pos) == Some((u, pos + ser_user(u).len())),
{
    let su = ser_user(u);
    let qn = quoted(key_name());
    let q1 = quoted(u.name);
    let qe = quoted(key_email());
    let q2 = quoted(u.email);
    assert(su == seq!['{'] + qn + seq![':'] + q1 + seq![','] + qe + seq![':'] + q2 + seq!['}']);
    assert(su.len() == 1 + qn.len() + 1 + q1.len() + 1 + qe.len() + 1 + q2.len() + 1);
    assert forall|k: int| 0 <= k < su.len() implies t[pos + k] == su[k] by {
        assert(t.subrange(pos, pos + su.len())[k] == su[k]);
    };
    let p_qn = pos + 1;
    let p_c1 = p_qn + qn.len();
    let p_q1 = p_c1 + 1;
    let p_cm = p_q1 + q1.len();
    let p_qe = p_cm + 1;
    let p_c2 = p_qe + qe.len();
    let p_q2 = p_c2 + 1;
    let p_cl = p_q2 + q2.len();
    assert(su[0] == '{');
    assert(t[pos] == '{');
    assert forall|k: int| 0 <= k < qn.len() implies t[p_qn + k] == qn[k] by {
        assert(su[1 + k] == qn[k]);
        assert(t[pos + (1 + k)] == su[1 + k]);
    };
    assert(t.subrange(p_qn, p_qn + qn.len()) =~= qn);
    assert(su[p_c1 - pos] == ':');
    assert(t[p_c1] == ':');
    assert forall|k: int| 0 <= k < q1.len() implies t[p_q1 + k] == q1[k] by {
        assert(su[(p_q1 - pos) + k] == q1[k]);
        assert(t[pos + ((p_q1 - pos) + k)] == su[(p_q1 - pos) + k]);
    };
    assert(t.subrange(p_q1, p_q1 + q1.len()) =~= q1);
    assert(su[p_cm - pos] == ',');
    assert(t[p_cm] == ',');
    assert forall|k: int| 0 <= k < qe.len() implies t[p_qe + k] == qe[k] by {
        assert(su[(p_qe - pos) + k] == qe[k]);
        assert(t[pos + ((p_qe - pos) + k)] == su[(p_qe - pos) + k]);
    };
    assert(t.subrange(p_qe, p_qe + qe.len()) =~= qe);
    assert(su[p_c2 - pos] == ':');
    assert(t[p_c2] == ':');
    assert forall|k: int| 0 <= k < q2.len() implies t[p_q2 + k] == q2[k] by {
        assert(su[(p_q2 - pos) + k] == q2[k]);
        assert(t[pos + ((p_q2 - pos) + k)] == su[(p_q2 - pos) + k]);
    };
    assert(t.subrange(p_q2, p_q2 + q2.len()) =~= q2);
    assert(su[p_cl - pos] == '}');
    assert(t[p_cl] == '}');
    lemma_sp_string_quoted(key_name(), t, p_qn);
    lemma_sp_string_quoted(u.name, t, p_q1);
    lemma_sp_string_quoted(key_email(), t, p_qe);
    lemma_sp_string_quoted(u.email, t, p_q2);
    assert(qn[0] == '"');
    assert(t[p_qn] == '"');
    assert(sp_ws(t, p_qn) == p_qn);
    assert(sp_ws(t, p_c1) == p_c1);
    assert(q1[0] == '"');
    assert(sp_ws(t, p_q1) == p_q1);
    assert(sp_ws(t, p_cm) == p_cm);
    assert(qe[0] == '"');
    assert(sp_ws(t, p_qe) == p_qe);
    assert(sp_ws(t, p_c2) == p_c2);
    assert(q2[0] == '"');
    assert(sp_ws(t, p_q2) == p_q2);
    assert(sp_ws(t, p_cl) == p_cl);
    assert(key_name().len() == 4);
    assert(key_email().len() == 5);
    assert(key_email() != key_name());
    assert(sp_user_after_value(t, p_cl, Some(u.name), Some(u.email)) == Some(
        (UserView { name: u.name, email: u.email }, p_cl + 1),
    ));
    assert(UserView { name: u.name, email: u.email } =~= u);
    assert(sp_user_members(t, p_qe, Some(u.name), None) == sp_user_after_value(
        t,
        p_cl,
        Some(u.name),
        Some(u.email),
    ));
    assert(sp_user_after_value(t, p_cm, Some(u.name), None) == sp_user_members(
        t,
        p_qe,
        Some(u.name),
        None,
    ));
    assert(sp_user_members(t, p_qn, None, None) == sp_user_after_value(
        t,
        p_cm,
        Some(u.name),
        None,
    ));
    assert(sp_user_value(t, pos) == sp_user_members(t, p_qn, None, None));
    assert(p_cl + 1 == pos + su.len());
}

/// The mapping after every entry has been added in order; a later entry
/// with the same name wins.
pub open spec fn insert_all(
    acc: Map<Seq<char>, UserView>,
    entries: Seq<(Seq<char>, UserView)>,
) -> Map<Seq<char>, UserView>
    decreases entries.len(),
{
    if entries.len() == 0 {
        acc
    } else {
        insert_all(acc.insert(entries[0].0, entries[0].1), entries.drop_first())
    }
}

proof fn lemma_insert_all_push(
    acc: Map<Seq<char>, UserView>,
    s: Seq<(Seq<char>, UserView)>,
    e: (Seq<char>, UserView),
)
    ensures
        insert_all(acc, s.push(e)) == insert_all(acc, s).insert(e.0, e.1),
    decreases s.len(),
{
    if s.len() == 0 {
        assert(s.push(e)[0] == e);
        assert(s.push(e).drop_first() =~= Seq::<(Seq<char>, UserView)>::empty());
        assert(insert_all(
            acc.insert(e.0, e.1),
            Seq::<(Seq<char>, UserView)>::empty(),
        ) == acc.insert(e.0, e.1));
        assert(insert_all(acc, s) == acc);
    } else {
        assert(s.push(e)[0] == s[0]);
        assert(s.push(e).drop_first() =~= s.drop_first().push(e));
        lemma_insert_all_push(acc.insert(s[0].0, s[0].1), s.drop_first(), e);
    }
}

proof fn lemma_insert_all_map_of(entries: Seq<(Seq<char>, UserView)>)
    ensures
        insert_all(Map::<Seq<char>, UserView>::empty(), entries) == map_of(entries),
    decreases entries.len(),
{
    if entries.len() > 0 {
        let dl = entries.drop_last();
        lemma_insert_all_map_of(dl);
        lemma_insert_all_push(Map::<Seq<char>, UserView>::empty(), dl, entries.last());
        assert(entries =~= dl.push(entries.last()));
    }
}

#[verifier::rlimit(80)]
proof fn lemma_parse_entries_ser(
    entries: Seq<(Seq<char>, UserView)>,
    t: Seq<char>,
    pos: int,
    acc: Map<Seq<char>, UserView>,
)
    requires
        entries.len() >= 1,
        0 <= pos,
        pos + ser_entries(entries).len() + 1 <= t.len(),
        t.subrange(pos, pos + ser_entries(entries).len()) == ser_entries(entries),
        t[pos + ser_entries(entries).len()] == '}',
    ensures
        sp_groups_members(t, pos, acc) == Some(
            (insert_all(acc, entries), pos + ser_entries(entries).len() + 1),
        ),
    decreases entries.len(),
{
    let se = ser_entries(entries);
    let e0 = entries[0];
    let en = ser_entry(e0);
    let qk = quoted(e0.0);
    let uu = ser_user(e0.1);
    assert(en == qk + seq![':'] + uu);
    assert forall|k: int| 0 <= k < se.len() implies t[pos + k] == se[k] by {
        assert(t.subrange(pos, pos + se.len())[k] == se[k]);
    };
    assert forall|k: int| 0 <= k < en.len() implies se[k] == en[k] by {};
    let p_c = pos + qk.len();
    let p_u = p_c + 1;
    let p_end = p_u + uu.len();
    assert forall|k: int| 0 <= k < qk.len() implies t[pos + k] == qk[k] by {
        assert(se[k] == en[k]);
        assert(en[k] == qk[k]);
    };
    assert(t.subrange(pos, pos + qk.len()) =~= qk);
    lemma_sp_string_quoted(e0.0, t, pos);
    assert(en[p_c - pos] == ':');
    assert(t[p_c] == ':');
    assert forall|k: int| 0 <= k < uu.len() implies t[p_u + k] == uu[k] by {
        assert(se[(p_u - pos) + k] == en[(p_u - pos) + k]);
        assert(en[(p_u - pos) + k] == uu[k]);
        assert(t[pos + ((p_u - pos) + k)] == se[(p_u - pos) + k]);
    };
    assert(t.subrange(p_u, p_u + uu.len()) =~= uu);
    lemma_parse_user_ser(e0.1, t, p_u);
    assert(sp_ws(t, p_c) == p_c);
    assert(uu[0] == '{');
    assert(t[p_u] == '{');
    assert(sp_ws(t, p_u) == p_u);
    let acc2 = acc.insert(e0.0, e0.1);
    if entries.len() == 1 {
        assert(se == en);
        assert(t[pos + se.len()] == '}');
        assert(sp_ws(t, p_end) == p_end);
        assert(p_end == pos + se.len());
        assert(sp_groups_members(t, pos, acc) == Some((acc2, p_end + 1)));
        assert(entries.drop_first().len() == 0);
        assert(insert_all(acc2, entries.drop_first()) == acc2);
        assert(insert_all(acc, entries) == acc2);
    } else {
        let df = entries.drop_first();
        let sd = ser_entries(df);
        assert(se == en + seq![','] + sd);
        assert(se[p_end - pos] == ',');
        assert(t[p_end] == ',');
        assert(sp_ws(t, p_end) == p_end);
        let p_next = p_end + 1;
        assert forall|k: int| 0 <= k < sd.len() implies t[p_next + k] == sd[k] by {
            assert(se[(p_next - pos) + k] == sd[k]);
            assert(t[pos + ((p_next - pos) + k)] == se[(p_next - pos) + k]);
        };
        assert(t.subrange(p_next, p_next + sd.len()) =~= sd);
        assert(t[p_next + sd.len()] == '}') by {
            assert(p_next + sd.len() == pos + se.len());
        };
        assert(df.len() >= 1);
        assert(sd == if df.len() == 1 {
            ser_entry(df[0])
        } else {
            ser_entry(df[0]) + seq![','] + ser_entries(df.drop_first())
        });
        assert(sd[0] == quoted(df[0].0)[0]);
        assert(quoted(df[0].0)[0] == '"');
        assert(t[p_next] == '"');
        assert(sp_ws(t, p_next) == p_next);
        lemma_parse_entries_ser(df, t, p_next, acc2);
        assert(sp_groups_members(t, pos, acc) == sp_groups_members(t, p_next, acc2));
        assert(insert_all(acc, entries) == insert_all(acc2, df));
    }
}

#[verifier::rlimit(80)]
proof fn lemma_roundtrip(entries: Seq<(Seq<char>, UserView)>)
    ensures
        sp_profiles(ser_profiles(entries)) == Some(map_of(entries)),
{
    let t = ser_profiles(entries);
    let qg = quoted(key_groups());
    let se = ser_entries(entries);
    assert(t == seq!['{'] + qg + seq![':'] + seq!['{'] + se + seq!['}'] + seq!['}']);
    assert(t.len() == 1 + qg.len() + 1 + 1 + se.len() + 1 + 1);
    let p_qg = 1int;
    let p_c = p_qg + qg.len();
    let p_g = p_c + 1;
    let p_in = p_g + 1;
    let p_gc = p_in + se.len();
    let p_rc = p_gc + 1;
    assert(t[0] == '{');
    assert forall|k: int| 0 <= k < qg.len() implies t[p_qg + k] == qg[k] by {};
    assert(t.subrange(p_qg, p_qg + qg.len()) =~= qg);
    lemma_sp_string_quoted(key_groups(), t, p_qg);
    assert(t[p_c] == ':');
    assert(t[p_g] == '{');
    assert(t[p_gc] == '}');
    assert(t[p_rc] == '}');
    assert(qg[0] == '"');
    assert(t[p_qg] == '"');
    assert(sp_ws(t, 0) == 0);
    assert(sp_ws(t, p_qg) == p_qg);
    assert(sp_ws(t, p_c) == p_c);
    assert(sp_ws(t, p_g) == p_g);
    assert(sp_ws(t, p_gc) == p_gc);
    assert(sp_ws(t, p_rc) == p_rc);
    assert(sp_ws(t, t.len() as int) == t.len());
    let m: Map<Seq<char>, UserView>;
    if entries.len() == 0 {
        assert(se.len() == 0);
        assert(t[p_in] == '}') by {
            assert(p_in == p_gc);
        }
        assert(sp_ws(t, p_in) == p_in);
        assert(sp_groups_value(t, p_g) == Some((Map::<Seq<char>, UserView>::empty(), p_in + 1)));
        m = Map::<Seq<char>, UserView>::empty();
        assert(map_of(entries) == m);
    } else {
        assert forall|k: int| 0 <= k < se.len() implies t[p_in + k] == se[k] by {};
        assert(t.subrange(p_in, p_in + se.len()) =~= se);
        assert(se[0] == quoted(entries[0].0)[0]);
        assert(quoted(entries[0].0)[0] == '"');
        assert(t[p_in] == '"');
        assert(sp_ws(t, p_in) == p_in);
        lemma_parse_entries_ser(
            entries,
            t,
            p_in,
            Map::<Seq<char>, UserView>::empty(),
        );
        lemma_insert_all_map_of(entries);
        m = map_of(entries);
        assert(sp_groups_members(t, p_in, Map::<Seq<char>, UserView>::empty()) == Some(
            (m, p_gc + 1),
        ));
        assert(sp_groups_value(t, p_g) == Some((m, p_gc + 1)));
    }
    assert(sp_root_after_value(t, p_gc + 1, Some(m)) == Some(
        (Some(m), p_rc + 1),
    )) by {
        assert(sp_ws(t, p_gc + 1) == p_rc) by {
            assert(p_gc + 1 == p_rc);
        }
    }
    assert(sp_root_members(t, p_qg, None) == sp_root_after_value(t, p_gc + 1, Some(m)));
    assert(p_rc + 1 == t.len());
    assert(sp_profiles(t) == Some(m));
}

/// Saving any profile mapping and loading the saved text back yields
/// exactly that mapping again, the empty mapping included.
pub proof fn lemma_save_load_roundtrip(pm: Profiles)
    ensures
        sp_profiles(ser_profiles(pm.entries_seq())) == Some(pm@),
{
    lemma_roundtrip(pm.entries_seq());
}

} // verus!
