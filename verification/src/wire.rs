//! The wire format: lines of text, trimmed on the way in and labelled on the
//! way out.

use vstd::prelude::*;

verus! {

/// Whether `c` is white space in the sense of `char::is_whitespace`: the
/// Unicode property `White_Space`.
pub uninterp spec fn is_whitespace(c: char) -> bool;

/// `char::is_whitespace` of std. Nothing is proved of it: the contract gives
/// its answer the name [`is_whitespace`], and claims only that the answer
/// depends on the character alone.
#[verifier::external_body]
fn char_is_whitespace(c: char) -> (white: bool)
    ensures
        white == is_whitespace(c),
{
    c.is_whitespace()
}

/// `s` without its leading white space.
pub open spec fn trim_start(s: Seq<char>) -> Seq<char>
    decreases s.len(),
{
    if s.len() > 0 && is_whitespace(s.first()) {
        trim_start(s.drop_first())
    } else {
        s
    }
}

/// `s` without its trailing white space.
pub open spec fn trim_end(s: Seq<char>) -> Seq<char>
    decreases s.len(),
{
    if s.len() > 0 && is_whitespace(s.last()) {
        trim_end(s.drop_last())
    } else {
        s
    }
}

/// `s` without its leading and trailing white space.
pub open spec fn trimmed(s: Seq<char>) -> Seq<char> {
    trim_end(trim_start(s))
}

/// Whether `s` holds nothing but white space. The empty text is blank.
pub open spec fn is_blank(s: Seq<char>) -> bool {
    forall|i: int| 0 <= i < s.len() ==> is_whitespace(#[trigger] s[i])
}

/// The line that carries `message` under `label`: the label, a colon and a
/// space, the message, and a line feed.
pub open spec fn line_of(label: Seq<char>, message: Seq<char>) -> Seq<char> {
    label + seq![':', ' '] + message + seq!['\n']
}

/// The line that greets a client whose connection was accepted.
pub open spec fn welcome_line() -> Seq<char> {
    "Welcome to chat.\n"@
}

/// The label of the notices that the relay itself sends.
pub open spec fn system_label() -> Seq<char> {
    "[SYSTEM]"@
}

/// The notice that the client `identity` has joined.
pub open spec fn joined_notice(identity: Seq<char>) -> Seq<char> {
    identity + " joined."@
}

/// The notice that the client `identity` has left.
pub open spec fn left_notice(identity: Seq<char>) -> Seq<char> {
    identity + " ayrıldı."@
}

/// Skipping `start` white characters at the front is what `trim_start` does,
/// as long as the character after them, if any, is not white.
proof fn lemma_trim_start_is_skip(s: Seq<char>, start: int)
    requires
        0 <= start <= s.len(),
        forall|i: int| 0 <= i < start ==> is_whitespace(#[trigger] s[i]),
        start < s.len() ==> !is_whitespace(s[start]),
    ensures
        trim_start(s) == s.subrange(start, s.len() as int),
    decreases start,
{
    if start == 0 {
        assert(s.subrange(0, s.len() as int) =~= s);
    } else {
        let rest = s.drop_first();
        assert forall|i: int| 0 <= i < start - 1 implies is_whitespace(#[trigger] rest[i]) by {
            assert(rest[i] == s[i + 1]);
        }
        lemma_trim_start_is_skip(rest, start - 1);
        assert(rest.subrange(start - 1, rest.len() as int) =~= s.subrange(start, s.len() as int));
    }
}

/// Dropping the white characters from `end` on is what `trim_end` does, as
/// long as the character before them, if any, is not white.
proof fn lemma_trim_end_is_take(s: Seq<char>, end: int)
    requires
        0 <= end <= s.len(),
        forall|i: int| end <= i < s.len() ==> is_whitespace(#[trigger] s[i]),
        0 < end ==> !is_whitespace(s[end - 1]),
    ensures
        trim_end(s) == s.subrange(0, end),
    decreases s.len() - end,
{
    if end == s.len() {
        assert(s.subrange(0, end) =~= s);
    } else {
        let rest = s.drop_last();
        lemma_trim_end_is_take(rest, end);
        assert(rest.subrange(0, end) =~= s.subrange(0, end));
    }
}

/// The characters of `text`, in order.
fn chars_of(text: &str) -> (chars: Vec<char>)
    ensures
        chars@ == text@,
{
    let mut chars: Vec<char> = Vec::new();
    for c in it: text.chars()
        invariant
            it.seq() == text@,
            chars@ == it.seq().take(it.index()),
    {
        chars.push(c);
        assert(it.seq().take(it.index() + 1) =~= it.seq().take(it.index()).push(c));
    }
    assert(chars@ =~= text@);
    chars
}

/// For each character, whether it is white.
fn classify(chars: &Vec<char>) -> (white: Vec<bool>)
    ensures
        white@.len() == chars@.len(),
        forall|i: int| 0 <= i < chars@.len() ==> white@[i] == is_whitespace(#[trigger] chars@[i]),
{
    let mut white: Vec<bool> = Vec::new();
    let mut i: usize = 0;
    while i < chars.len()
        invariant
            i <= chars.len(),
            white@.len() == i,
            forall|j: int| 0 <= j < i ==> white@[j] == is_whitespace(#[trigger] chars@[j]),
        decreases chars.len() - i,
    {
        white.push(char_is_whitespace(chars[i]));
        i += 1;
    }
    white
}

/// Where the content of a text lies, given for each of its characters
/// whether it is white: from the first character that is not white up to,
/// and not including, what follows the last one. A text that is all white
/// has its empty content at its end.
pub fn content_bounds(white: &Vec<bool>) -> (bounds: (usize, usize))
    ensures
        bounds.0 <= bounds.1 <= white@.len(),
        forall|i: int| 0 <= i < bounds.0 ==> white@[i],
        forall|i: int| bounds.1 <= i < white@.len() ==> white@[i],
        bounds.0 < bounds.1 ==> !white@[bounds.0 as int] && !white@[bounds.1 - 1],
        bounds.0 == bounds.1 ==> bounds.0 == white@.len(),
{
    let n: usize = white.len();
    let mut start: usize = 0;
    while start < n && white[start]
        invariant
            n == white.len(),
            start <= n,
            forall|i: int| 0 <= i < start ==> white@[i],
        decreases n - start,
    {
        start += 1;
    }
    let mut end: usize = n;
    while end > start && white[end - 1]
        invariant
            n == white.len(),
            start <= end <= n,
            forall|i: int| end <= i < n ==> white@[i],
        decreases end,
    {
        end -= 1;
    }
    (start, end)
}

/// Removes the white space at both ends of `line`, the line terminator with it.
pub fn trim(line: &str) -> (text: &str)
    ensures
        text@ == trimmed(line@),
{
    let chars = chars_of(line);
    let white = classify(&chars);
    let (start, end) = content_bounds(&white);
    proof {
        let s = line@;
        let front = s.subrange(start as int, s.len() as int);
        lemma_trim_start_is_skip(s, start as int);
        lemma_trim_end_is_take(front, end - start);
        assert(front.subrange(0, end - start) =~= s.subrange(start as int, end as int));
    }
    line.substring_char(start, end)
}

/// Formats `message` as the line sent under `label`.
pub fn format_line(label: &str, message: &str) -> (line: String)
    ensures
        line@ == line_of(label@, message@),
{
    let mut line = String::from_str(label);
    line.append(": ");
    line.append(message);
    line.append("\n");
    proof {
        reveal_strlit(": ");
        reveal_strlit("\n");
        assert(": "@ =~= seq![':', ' ']);
        assert("\n"@ =~= seq!['\n']);
    }
    line
}

/// The line that greets a client whose connection was accepted.
pub fn welcome() -> (line: String)
    ensures
        line@ == welcome_line(),
{
    String::from_str("Welcome to chat.\n")
}

/// The label of the notices that the relay itself sends.
pub fn system_name() -> (label: String)
    ensures
        label@ == system_label(),
{
    String::from_str("[SYSTEM]")
}

/// The notice that the client at `address` has joined.
pub fn join_notice(address: &str) -> (notice: String)
    ensures
        notice@ == joined_notice(address@),
{
    String::from_str(address).concat(" joined.")
}

/// The notice that the client at `address` has left.
pub fn leave_notice(address: &str) -> (notice: String)
    ensures
        notice@ == left_notice(address@),
{
    String::from_str(address).concat(" ayrıldı.")
}

/// A text is blank exactly when nothing is left of it after trimming.
pub proof fn lemma_blank_trims_to_nothing(s: Seq<char>)
    ensures
        is_blank(s) <==> trimmed(s).len() == 0,
{
    lemma_trim_start(s);
    lemma_trim_end(trim_start(s));
    let front = trim_start(s);
    let skipped: int = s.len() - front.len();
    if is_blank(s) {
        if front.len() > 0 {
            assert(front[0] == s[skipped]);
        }
    }
    if trimmed(s).len() == 0 {
        assert forall|i: int| 0 <= i < s.len() implies is_whitespace(#[trigger] s[i]) by {
            if i >= skipped {
                assert(front[i - skipped] == s[i]);
            }
        }
    }
}

/// What `trim_start` takes away is white, and only from the front: the rest
/// is the tail of the text, and it does not begin with white space.
pub proof fn lemma_trim_start(s: Seq<char>)
    ensures
        trim_start(s).len() <= s.len(),
        trim_start(s) == s.subrange(s.len() - trim_start(s).len(), s.len() as int),
        forall|i: int| 0 <= i < s.len() - trim_start(s).len() ==> is_whitespace(#[trigger] s[i]),
        trim_start(s).len() > 0 ==> !is_whitespace(trim_start(s).first()),
    decreases s.len(),
{
    if s.len() > 0 && is_whitespace(s.first()) {
        let rest = s.drop_first();
        lemma_trim_start(rest);
        let skipped: int = rest.len() - trim_start(rest).len();
        assert(rest.subrange(skipped, rest.len() as int) =~= s.subrange(skipped + 1, s.len() as int));
        assert forall|i: int| 0 <= i < s.len() - trim_start(s).len() implies is_whitespace(
            #[trigger] s[i],
        ) by {
            if i > 0 {
                assert(rest[i - 1] == s[i]);
            }
        }
    } else {
        assert(s.subrange(0, s.len() as int) =~= s);
    }
}

/// What `trim_end` takes away is white, and only from the back: the rest is
/// the head of the text, and it does not end in white space.
pub proof fn lemma_trim_end(s: Seq<char>)
    ensures
        trim_end(s).len() <= s.len(),
        trim_end(s) == s.subrange(0, trim_end(s).len() as int),
        forall|i: int| trim_end(s).len() <= i < s.len() ==> is_whitespace(#[trigger] s[i]),
        trim_end(s).len() > 0 ==> !is_whitespace(trim_end(s).last()),
    decreases s.len(),
{
    if s.len() > 0 && is_whitespace(s.last()) {
        let rest = s.drop_last();
        lemma_trim_end(rest);
        assert(rest.subrange(0, trim_end(rest).len() as int) =~= s.subrange(
            0,
            trim_end(rest).len() as int,
        ));
        assert forall|i: int| trim_end(s).len() <= i < s.len() implies is_whitespace(
            #[trigger] s[i],
        ) by {
            if i < rest.len() {
                assert(rest[i] == s[i]);
            }
        }
    } else {
        assert(s.subrange(0, s.len() as int) =~= s);
    }
}

} // verus!
