//! Small text helpers shared by the parsing modules and the table renderer:
//! turning a string into its characters, building a string back up, and
//! truncating for display.

use vstd::prelude::*;
use vstd::string::StrSliceExecFns;
use vstd::string::StringSliceAdditionalSpecFns;

verus! {

/// The whitespace characters recognized between the tokens of the profile
/// file.
pub open spec fn is_ws(c: char) -> bool {
    c == ' ' || c == '\t' || c == '\n' || c == '\r'
}

pub fn is_ws_char(c: char) -> (r: bool)
    ensures
        r == is_ws(c),
{
    c == ' ' || c == '\t' || c == '\n' || c == '\r'
}

/// The Unicode White_Space property: the characters that std's trimming
/// removes. Tab through carriage return (vertical tab and form feed
/// included), space, next line, no-break space, the Ogham space mark, the
/// typographic spaces, both line separators, the narrow and medium
/// mathematical spaces and the ideographic space.
pub open spec fn is_white_space(c: char) -> bool {
    let v = c as int;
    (9 <= v && v <= 13) || v == 32 || v == 0x85 || v == 0xA0 || v == 0x1680 || (0x2000 <= v && v
        <= 0x200A) || v == 0x2028 || v == 0x2029 || v == 0x202F || v == 0x205F || v == 0x3000
}

pub fn is_white_space_char(c: char) -> (r: bool)
    ensures
        r == is_white_space(c),
{
    let v = c as u32;
    (9 <= v && v <= 13) || v == 32 || v == 0x85 || v == 0xA0 || v == 0x1680 || (0x2000 <= v && v
        <= 0x200A) || v == 0x2028 || v == 0x2029 || v == 0x202F || v == 0x205F || v == 0x3000
}

/// Relies on String::push: appends exactly the one character.
pub assume_specification[ String::push ](s: &mut String, ch: char)
    ensures
        final(s)@ == old(s)@.push(ch),
;

/// The characters of `s`, one vector element each.
pub fn str_chars(s: &str) -> (v: Vec<char>)
    ensures
        v@ == s@,
{
    let n = s.unicode_len();
    let mut v: Vec<char> = Vec::new();
    let mut i: usize = 0;
    while i < n
        invariant
            i <= n,
            n == s@.len(),
            v@.len() == i,
            forall|j: int| 0 <= j < i ==> v@[j] == s@[j],
        decreases n - i,
    {
        v.push(s.get_char(i));
        i += 1;
    }
    proof {
        assert(v@ =~= s@);
    }
    v
}

/// A string holding the characters `v[from..to]`.
pub fn string_of_range(v: &Vec<char>, from: usize, to: usize) -> (s: String)
    requires
        from <= to <= v@.len(),
    ensures
        s@ == v@.subrange(from as int, to as int),
{
    let mut s = String::new();
    let mut i: usize = from;
    while i < to
        invariant
            from <= i <= to <= v@.len(),
            s@ == v@.subrange(from as int, i as int),
        decreases to - i,
    {
        let ghost prev = s@;
        s.push(v[i]);
        i += 1;
        proof {
            assert(s@ =~= v@.subrange(from as int, i as int));
        }
    }
    s
}

/// At most the first `max_len` bytes of `s`, for fixed-width display. A
/// cut inside a character's encoding is excluded: byte slicing there
/// panics.
pub fn truncate_str(s: &str, max_len: usize) -> (r: &str)
    requires
        s.spec_bytes().len() <= usize::MAX,
        s.spec_bytes().len() <= max_len || vstd::utf8::is_char_boundary(
            s.spec_bytes(),
            max_len as int,
        ),
    ensures
        s.spec_bytes().len() <= max_len ==> r@ == s@ && r.spec_bytes() == s.spec_bytes(),
        s.spec_bytes().len() > max_len ==> r.spec_bytes() == s.spec_bytes().subrange(
            0,
            max_len as int,
        ),
{
    if s.len() <= max_len {
        s
    } else {
        let pair = s.split_at(max_len);
        proof {
            assert(pair.0.spec_bytes() =~= s.spec_bytes().subrange(0, max_len as int));
        }
        pair.0
    }
}

} // verus!
