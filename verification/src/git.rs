//! Reading and planning around the external tool's configuration commands:
//! parsing the batched `key value` output of an identity read, trimming the
//! single-key outputs, and the two-step plan of an identity write.
//!
//! Launching the external processes happens outside this crate; these
//! functions take the raw output text and hand back plain values.

use vstd::prelude::*;
use crate::config::{GumError, UserConfig, UserView};
use crate::utils::{is_white_space, is_white_space_char, str_chars, string_of_range};
use vstd::string::StrSliceExecFns;

verus! {

pub open spec fn trim_start_spec(s: Seq<char>) -> Seq<char>
    decreases s.len(),
{
    if s.len() > 0 && is_white_space(s[0]) {
        trim_start_spec(s.drop_first())
    } else {
        s
    }
}

pub open spec fn trim_end_spec(s: Seq<char>) -> Seq<char>
    decreases s.len(),
{
    if s.len() > 0 && is_white_space(s.last()) {
        trim_end_spec(s.drop_last())
    } else {
        s
    }
}

/// `s` without leading and trailing whitespace, over the full Unicode
/// White_Space set.
pub open spec fn trim_spec(s: Seq<char>) -> Seq<char> {
    trim_end_spec(trim_start_spec(s))
}

/// The position of the first occurrence of `c` in `s`.
pub open spec fn first_index_of(s: Seq<char>, c: char) -> Option<int>
    decreases s.len(),
{
    if s.len() == 0 {
        None
    } else if s[0] == c {
        Some(0int)
    } else {
        match first_index_of(s.drop_first(), c) {
            Some(i) => Some(i + 1),
            None => None,
        }
    }
}

pub proof fn lemma_first_index_of(s: Seq<char>, c: char)
    ensures
        match first_index_of(s, c) {
            Some(i) => 0 <= i < s.len() && s[i] == c && forall|j: int| 0 <= j < i ==> s[j] != c,
            None => forall|j: int| 0 <= j < s.len() ==> s[j] != c,
        },
    decreases s.len(),
{
    if s.len() > 0 && s[0] != c {
        let t = s.drop_first();
        lemma_first_index_of(t, c);
        assert(forall|j: int| 1 <= j < s.len() ==> s[j] == t[j - 1]);
        if first_index_of(t, c) is Some {
            let i = first_index_of(t, c)->0;
            assert(t[i] == c);
            assert(s[i + 1] == c);
            assert(forall|j: int| 1 <= j < i + 1 ==> #[trigger] t[j - 1] != c);
            assert(forall|j: int| 0 <= j < i + 1 ==> s[j] != c);
        } else {
            assert(forall|j: int| 1 <= j < s.len() ==> #[trigger] t[j - 1] != c);
            assert(forall|j: int| 0 <= j < s.len() ==> s[j] != c);
        }
    }
}

/// A segment without the carriage return that a `"\r\n"` ending leaves.
pub open spec fn strip_cr(l: Seq<char>) -> Seq<char> {
    if l.len() > 0 && l.last() == '\r' {
        l.drop_last()
    } else {
        l
    }
}

/// `s` cut at every newline, the newlines themselves dropped. A segment
/// that a newline ended loses one trailing carriage return; the final
/// segment, which no newline ended, keeps its characters.
pub open spec fn split_lines(s: Seq<char>) -> Seq<Seq<char>>
    decreases s.len(),
{
    match first_index_of(s, '\n') {
        None => seq![s],
        Some(i) => if 0 <= i < s.len() {
            seq![strip_cr(s.take(i))] + split_lines(s.skip(i + 1))
        } else {
            seq![s]
        },
    }
}

/// What one `key value` line does to the two fields being collected: the
/// recognized keys replace their field, anything else is ignored.
pub open spec fn apply_line(l: Seq<char>, name: Seq<char>, email: Seq<char>) -> (Seq<char>, Seq<
    char,
>) {
    match first_index_of(l, ' ') {
        None => (name, email),
        Some(i) => {
            let key = l.take(i);
            let value = l.skip(i + 1);
            if key == "user.name"@ {
                (value, email)
            } else if key == "user.email"@ {
                (name, value)
            } else {
                (name, email)
            }
        },
    }
}

/// The two fields after every line has been applied in order.
pub open spec fn scan_lines(lines: Seq<Seq<char>>, name: Seq<char>, email: Seq<char>) -> (Seq<
    char,
>, Seq<char>)
    decreases lines.len(),
{
    if lines.len() == 0 {
        (name, email)
    } else {
        let applied = apply_line(lines[0], name, email);
        scan_lines(lines.drop_first(), applied.0, applied.1)
    }
}

/// The identity that a batched read's output denotes: the last value of each
/// recognized key, or nothing when neither key has a value.
pub open spec fn batch_identity(s: Seq<char>) -> Option<UserView> {
    let scanned = scan_lines(split_lines(s), Seq::<char>::empty(), Seq::<char>::empty());
    if scanned.0.len() == 0 && scanned.1.len() == 0 {
        None
    } else {
        Some(UserView { name: scanned.0, email: scanned.1 })
    }
}

/// `s` without leading and trailing whitespace, as a fresh string.
pub fn trim_chars(s: &str) -> (r: String)
    ensures
        r@ == trim_spec(s@),
{
    let cs = str_chars(s);
    let n = cs.len();
    proof {
        assert(s@.skip(0) =~= s@);
    }
    let mut start: usize = 0;
    while start < n && is_white_space_char(cs[start])
        invariant
            start <= n,
            n == cs@.len(),
            cs@ == s@,
            trim_start_spec(s@) == trim_start_spec(s@.skip(start as int)),
        decreases n - start,
    {
        proof {
            assert(s@.skip(start as int).drop_first() =~= s@.skip(start as int + 1));
        }
        start += 1;
    }
    proof {
        assert(trim_start_spec(s@.skip(start as int)) == s@.skip(start as int));
    }
    let mut end: usize = n;
    while end > start && is_white_space_char(cs[end - 1])
        invariant
            start <= end <= n,
            n == cs@.len(),
            cs@ == s@,
            trim_start_spec(s@) == s@.skip(start as int),
            trim_end_spec(s@.skip(start as int)) == trim_end_spec(
                s@.subrange(start as int, end as int),
            ),
        decreases end,
    {
        proof {
            assert(s@.subrange(start as int, end as int).last() == s@[end - 1]);
            assert(s@.subrange(start as int, end as int).drop_last() =~= s@.subrange(
                start as int,
                end as int - 1,
            ));
        }
        end -= 1;
    }
    proof {
        if end == start {
            assert(s@.subrange(start as int, end as int).len() == 0);
        }
        assert(trim_end_spec(s@.subrange(start as int, end as int)) == s@.subrange(
            start as int,
            end as int,
        ));
    }
    string_of_range(&cs, start, end)
}

/// The identity denoted by the two single-key outputs: both fields trimmed,
/// and present only when neither is empty.
pub fn identity_from_outputs(name_out: &str, email_out: &str) -> (r: Option<UserConfig>)
    ensures
        ({
            let n = trim_spec(name_out@);
            let e = trim_spec(email_out@);
            match r {
                Some(u) => n.len() > 0 && e.len() > 0 && u@ == (UserView { name: n, email: e }),
                None => n.len() == 0 || e.len() == 0,
            }
        }),
{
    let name = trim_chars(name_out);
    let email = trim_chars(email_out);
    if name.as_str().is_empty() || email.as_str().is_empty() {
        None
    } else {
        Some(UserConfig { name, email })
    }
}

/// The position of the first `c` at or after `from`.
fn find_char(cs: &Vec<char>, c: char, from: usize) -> (r: Option<usize>)
    requires
        from <= cs@.len(),
    ensures
        match r {
            Some(j) => from <= j < cs@.len() && cs@[j as int] == c && forall|k: int|
                from <= k < j ==> cs@[k] != c,
            None => forall|k: int| from <= k < cs@.len() ==> cs@[k] != c,
        },
{
    let mut i: usize = from;
    while i < cs.len()
        invariant
            from <= i <= cs@.len(),
            forall|k: int| from <= k < i ==> cs@[k] != c,
        decreases cs@.len() - i,
    {
        if cs[i] == c {
            return Some(i);
        }
        i += 1;
    }
    None
}

/// Whether the characters `cs[from..to]` spell exactly `lit`.
fn range_eq_str(cs: &Vec<char>, from: usize, to: usize, lit: &str) -> (r: bool)
    requires
        from <= to <= cs@.len(),
    ensures
        r == (cs@.subrange(from as int, to as int) == lit@),
{
    let n = lit.unicode_len();
    if to - from != n {
        proof {
            assert(cs@.subrange(from as int, to as int).len() != lit@.len());
        }
        return false;
    }
    let mut i: usize = 0;
    while i < n
        invariant
            i <= n,
            n == lit@.len(),
            to - from == n,
            from <= to <= cs@.len(),
            forall|j: int| 0 <= j < i ==> cs@[from + j] == lit@[j],
        decreases n - i,
    {
        if cs[from + i] != lit.get_char(i) {
            proof {
                assert(cs@.subrange(from as int, to as int)[i as int] != lit@[i as int]);
            }
            return false;
        }
        i += 1;
    }
    proof {
        assert(cs@.subrange(from as int, to as int) =~= lit@);
    }
    true
}

/// One line applied to the two collected fields.
fn apply_line_exec(cs: &Vec<char>, from: usize, to: usize, name: String, email: String) -> (r: (
    String,
    String,
))
    requires
        from <= to <= cs@.len(),
    ensures
        ({
            let applied = apply_line(cs@.subrange(from as int, to as int), name@, email@);
            r.0@ == applied.0 && r.1@ == applied.1
        }),
{
    let ghost l = cs@.subrange(from as int, to as int);
    proof {
        lemma_first_index_of(l, ' ');
    }
    let sp = find_char_range(cs, ' ', from, to);
    match sp {
        None => {
            proof {
                assert(first_index_of(l, ' ') is None) by {
                    if first_index_of(l, ' ') is Some {
                        let i = first_index_of(l, ' ')->0;
                        assert(l[i] == ' ');
                        assert(l[i] == cs@[from + i]);
                    }
                }
            }
            (name, email)
        },
        Some(j) => {
            proof {
                assert(l[j - from] == ' ');
                assert(forall|k: int| 0 <= k < j - from ==> l[k] != ' ');
                if first_index_of(l, ' ') is Some {
                    let i = first_index_of(l, ' ')->0;
                    assert(l[i] == ' ');
                    assert(i == j - from);
                }
                assert(first_index_of(l, ' ') == Some(j - from));
                assert(l.take(j - from) =~= cs@.subrange(from as int, j as int));
                assert(l.skip(j - from + 1) =~= cs@.subrange(j as int + 1, to as int));
            }
            if range_eq_str(cs, from, j, "user.name") {
                let value = string_of_range(cs, j + 1, to);
                (value, email)
            } else if range_eq_str(cs, from, j, "user.email") {
                let value = string_of_range(cs, j + 1, to);
                (name, value)
            } else {
                (name, email)
            }
        },
    }
}

/// The position of the first `c` in `cs[from..to]`.
fn find_char_range(cs: &Vec<char>, c: char, from: usize, to: usize) -> (r: Option<usize>)
    requires
        from <= to <= cs@.len(),
    ensures
        match r {
            Some(j) => from <= j < to && cs@[j as int] == c && forall|k: int|
                from <= k < j ==> cs@[k] != c,
            None => forall|k: int| from <= k < to ==> cs@[k] != c,
        },
{
    let mut i: usize = from;
    while i < to
        invariant
            from <= i <= to,
            to <= cs@.len(),
            forall|k: int| from <= k < i ==> cs@[k] != c,
        decreases to - i,
    {
        if cs[i] == c {
            return Some(i);
        }
        i += 1;
    }
    None
}

/// The fields collected from the lines of `cs[pos..]`.
fn scan_output(cs: &Vec<char>, pos: usize, name: String, email: String) -> (r: (String, String))
    requires
        pos <= cs@.len(),
    ensures
        ({
            let scanned = scan_lines(split_lines(cs@.skip(pos as int)), name@, email@);
            r.0@ == scanned.0 && r.1@ == scanned.1
        }),
    decreases cs@.len() - pos,
{
    let ghost tail = cs@.skip(pos as int);
    proof {
        lemma_first_index_of(tail, '\n');
    }
    match find_char(cs, '\n', pos) {
        None => {
            proof {
                assert(first_index_of(tail, '\n') is None) by {
                    if first_index_of(tail, '\n') is Some {
                        let i = first_index_of(tail, '\n')->0;
                        assert(tail[i] == '\n');
                        assert(pos + i < cs@.len());
                        assert(tail[i] == cs@[pos + i]);
                    }
                }
                assert(split_lines(tail) == seq![tail]);
                assert(tail =~= cs@.subrange(pos as int, cs@.len() as int));
                let applied = apply_line(tail, name@, email@);
                assert(seq![tail][0] == tail);
                assert(seq![tail].drop_first() =~= Seq::<Seq<char>>::empty());
                assert(scan_lines(Seq::<Seq<char>>::empty(), applied.0, applied.1) == (
                    applied.0,
                    applied.1,
                ));
                assert(scan_lines(seq![tail], name@, email@) == applied);
            }
            apply_line_exec(cs, pos, cs.len(), name, email)
        },
        Some(nl) => {
            let to = if nl > pos && cs[nl - 1] == '\r' {
                nl - 1
            } else {
                nl
            };
            proof {
                assert(tail[nl - pos] == '\n');
                assert(forall|k: int| 0 <= k < nl - pos ==> tail[k] != '\n');
                if first_index_of(tail, '\n') is Some {
                    let i = first_index_of(tail, '\n')->0;
                    assert(tail[i] == '\n');
                    assert(i == nl - pos);
                }
                assert(first_index_of(tail, '\n') == Some(nl - pos));
                let seg = tail.take(nl - pos);
                assert(split_lines(tail) == seq![strip_cr(seg)] + split_lines(
                    tail.skip(nl - pos + 1),
                ));
                assert(seg =~= cs@.subrange(pos as int, nl as int));
                if nl > pos && cs@[nl - 1] == '\r' {
                    assert(seg.last() == tail[nl - pos - 1]);
                    assert(tail[nl - pos - 1] == cs@[nl - 1]);
                    assert(strip_cr(seg) =~= cs@.subrange(pos as int, to as int));
                } else {
                    if seg.len() > 0 {
                        assert(seg.last() == tail[nl - pos - 1]);
                        assert(tail[nl - pos - 1] == cs@[nl - 1]);
                    }
                    assert(strip_cr(seg) =~= cs@.subrange(pos as int, to as int));
                }
                assert(tail.skip(nl - pos + 1) =~= cs@.skip(nl as int + 1));
                let applied = apply_line(strip_cr(seg), name@, email@);
                let lines = split_lines(tail);
                assert(lines[0] == strip_cr(seg));
                assert(lines.drop_first() =~= split_lines(tail.skip(nl - pos + 1)));
                assert(scan_lines(lines, name@, email@) == scan_lines(
                    split_lines(tail.skip(nl - pos + 1)),
                    applied.0,
                    applied.1,
                ));
            }
            assert(nl < cs.len());
            let applied = apply_line_exec(cs, pos, to, name, email);
            scan_output(cs, nl + 1, applied.0, applied.1)
        },
    }
}

/// The identity that the batched read's output denotes, or nothing when
/// neither recognized key had a value. A failed external read is handled by
/// the caller and never reaches this function.
pub fn parse_identity_output(s: &str) -> (r: Option<UserConfig>)
    ensures
        match r {
            Some(u) => batch_identity(s@) == Some(u@),
            None => batch_identity(s@) is None,
        },
{
    let cs = str_chars(s);
    let scanned = scan_output(&cs, 0, String::new(), String::new());
    proof {
        assert(cs@.skip(0) =~= s@);
    }
    let (name, email) = scanned;
    if name.as_str().is_empty() && email.as_str().is_empty() {
        None
    } else {
        Some(UserConfig { name, email })
    }
}

/// The scope flag handed to the external tool.
pub fn scope_flag(global: bool) -> (r: &'static str)
    ensures
        global ==> r@ == "--global"@,
        !global ==> r@ == "--local"@,
{
    if global {
        "--global"
    } else {
        "--local"
    }
}

/// The multi-key query that retrieves both identity keys in one read.
pub fn identity_query_pattern() -> (r: &'static str)
    ensures
        r@ == "^user\\.(name|email)$"@,
{
    "^user\\.(name|email)$"
}

/// The two sequential steps of an identity write: the user-name key first,
/// then the email key.
#[derive(Clone, Copy, Debug, PartialEq, Eq, Structural)]
pub enum WriteStep {
    /// Write the user-name key.
    SetName,
    /// Write the email key.
    SetEmail,
    /// Both keys are written.
    Done,
}

/// The configuration key that `step` writes.
pub fn write_step_key(step: WriteStep) -> (r: &'static str)
    requires
        step != WriteStep::Done,
    ensures
        step == WriteStep::SetName ==> r@ == "user.name"@,
        step == WriteStep::SetEmail ==> r@ == "user.email"@,
{
    match step {
        WriteStep::SetName => "user.name",
        WriteStep::SetEmail => "user.email",
        WriteStep::Done => "",
    }
}

/// The value that `step` writes for the identity `user`.
pub fn write_step_value<'a>(step: WriteStep, user: &'a UserConfig) -> (r: &'a str)
    requires
        step != WriteStep::Done,
    ensures
        step == WriteStep::SetName ==> r@ == user.name@,
        step == WriteStep::SetEmail ==> r@ == user.email@,
{
    match step {
        WriteStep::SetName => user.name.as_str(),
        WriteStep::SetEmail => user.email.as_str(),
        WriteStep::Done => user.name.as_str(),
    }
}

/// The step after `step` reported `success`: a failed name write stops the
/// sequence before the email write is attempted, so a partial write leaves
/// the name key set and the email key untouched.
pub fn next_write_step(step: WriteStep, success: bool) -> (r: Result<WriteStep, GumError>)
    requires
        step != WriteStep::Done,
    ensures
        step == WriteStep::SetName && success ==> r == Ok::<WriteStep, GumError>(
            WriteStep::SetEmail,
        ),
        step == WriteStep::SetName && !success ==> r == Err::<WriteStep, GumError>(
            GumError::NameWriteFailed,
        ),
        step == WriteStep::SetEmail && success ==> r == Ok::<WriteStep, GumError>(WriteStep::Done),
        step == WriteStep::SetEmail && !success ==> r == Err::<WriteStep, GumError>(
            GumError::EmailWriteFailed,
        ),
{
    match step {
        WriteStep::SetName => {
            if success {
                Ok(WriteStep::SetEmail)
            } else {
                Err(GumError::NameWriteFailed)
            }
        },
        WriteStep::SetEmail => {
            if success {
                Ok(WriteStep::Done)
            } else {
                Err(GumError::EmailWriteFailed)
            }
        },
        WriteStep::Done => Ok(WriteStep::Done),
    }
}

} // verus!
