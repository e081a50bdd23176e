//! Short texts derived from user content: the command taken from a terminal
//! selection, the title of a chat, and the names of plugin tools.
use vstd::prelude::*;
use vstd::string::{StrSliceExecFns, StringExecFns};

use crate::bytes::{find_first, find_last, is_first, lemma_find_first, lemma_find_last};
use crate::zfile::{is_unicode_whitespace, is_whitespace_char};

verus! {

pub open spec fn is_line_break(c: char) -> bool {
    c == '\r' || c == '\n'
}

/// `s` without the leading and trailing characters that satisfy `f`.
pub open spec fn trim_by(s: Seq<char>, f: spec_fn(char) -> bool) -> Seq<char> {
    let a = find_first(s, |c: char| !f(c));
    if a == s.len() {
        Seq::empty()
    } else {
        s.subrange(a, find_last(s, |c: char| !f(c)) + 1)
    }
}

/// What is trimmed: line breaks, or white space.
pub open spec fn trimmed_chars(line_breaks: bool) -> spec_fn(char) -> bool {
    if line_breaks {
        |c: char| is_line_break(c)
    } else {
        |c: char| is_unicode_whitespace(c)
    }
}

pub open spec fn all_whitespace(s: Seq<char>) -> bool {
    forall|k: int| 0 <= k < s.len() ==> is_unicode_whitespace(#[trigger] s[k])
}

/// The command a terminal selection fills the command bar with: the
/// selection without its leading and trailing line breaks, unless nothing but
/// white space is left.
pub open spec fn spec_command_bar_text(selection: Seq<char>) -> Option<Seq<char>> {
    let command = trim_by(selection, trimmed_chars(true));
    if all_whitespace(command) {
        None
    } else {
        Some(command)
    }
}

/// Appends the character of `s` at `i`.
pub(crate) fn push_char_at(text: &mut String, s: &str, i: usize)
    requires
        i < s@.len() <= usize::MAX,
    ensures
        final(text)@ == old(text)@.push(s@[i as int]),
{
    let c = s.substring_char(i, i + 1);
    assert(c@ =~= seq![s@[i as int]]);
    text.append(c);
}

/// The bounds `[a, b)` of `s` once line breaks (or white space) are trimmed
/// from both ends (`a == b == len` when nothing is left).
pub(crate) fn trim_bounds(s: &str, line_breaks: bool) -> (r: (usize, usize))
    ensures
        ({
            let f = trimmed_chars(line_breaks);
            &&& r.0 <= r.1 <= s@.len() <= usize::MAX
            &&& r.0 == r.1 ==> trim_by(s@, f).len() == 0
            &&& r.0 < r.1 ==> trim_by(s@, f) == s@.subrange(r.0 as int, r.1 as int)
            &&& forall|k: int| 0 <= k < r.0 ==> f(#[trigger] s@[k])
            &&& forall|k: int| r.1 <= k < s@.len() ==> f(#[trigger] s@[k])
            &&& r.0 < r.1 ==> !f(s@[r.0 as int]) && !f(s@[r.1 - 1])
        }),
{
    let n = s.unicode_len();
    let ghost f = trimmed_chars(line_breaks);
    let ghost keep = |c: char| !f(c);
    let mut a: usize = 0;
    while a < n
        invariant
            a <= n == s@.len(),
            f == trimmed_chars(line_breaks),
            forall|k: int| 0 <= k < a ==> f(#[trigger] s@[k]),
        ensures
            a <= n == s@.len(),
            forall|k: int| 0 <= k < a ==> f(#[trigger] s@[k]),
            a < n ==> !f(s@[a as int]),
        decreases n - a,
    {
        let c = s.get_char(a);
        let skip = if line_breaks {
            c == '\r' || c == '\n'
        } else {
            is_whitespace_char(c)
        };
        if !skip {
            break;
        }
        a = a + 1;
    }
    proof {
        assert(is_first(s@, keep, a as int));
        lemma_find_first(s@, keep, a as int);
    }
    if a == n {
        return (n, n);
    }
    let mut b: usize = n;
    while b > a + 1
        invariant
            a < b <= n == s@.len(),
            f == trimmed_chars(line_breaks),
            !f(s@[a as int]),
            forall|k: int| b <= k < n ==> f(#[trigger] s@[k]),
        ensures
            a < b <= n,
            forall|k: int| b <= k < n ==> f(#[trigger] s@[k]),
            !f(s@[b - 1]),
        decreases b,
    {
        let c = s.get_char(b - 1);
        let skip = if line_breaks {
            c == '\r' || c == '\n'
        } else {
            is_whitespace_char(c)
        };
        if !skip {
            break;
        }
        b = b - 1;
    }
    proof {
        lemma_find_last(s@, keep, b - 1);
    }
    (a, b)
}

/// The command a terminal selection fills the command bar with.
pub fn terminal_selection_command_bar_text(selection: &str) -> (r: Option<String>)
    ensures
        match spec_command_bar_text(selection@) {
            Some(c) => r matches Some(s) && s@ == c,
            None => r is None,
        },
{
    let (a, b) = trim_bounds(selection, true);
    let ghost command = trim_by(selection@, trimmed_chars(true));
    assert(a < b ==> command == selection@.subrange(a as int, b as int));
    if a == b {
        assert(all_whitespace(command));
        return None;
    }
    let mut i: usize = a;
    while i < b
        invariant
            a <= i <= b <= selection@.len(),
            command == trim_by(selection@, trimmed_chars(true)),
            command == selection@.subrange(a as int, b as int),
            forall|k: int| a <= k < i ==> is_unicode_whitespace(#[trigger] selection@[k]),
        decreases b - i,
    {
        if !is_whitespace_char(selection.get_char(i)) {
            assert(command[i - a] == selection@[i as int]);
            assert(!is_unicode_whitespace(command[i - a]));
            assert(!all_whitespace(command));
            return Some(String::from_str(selection.substring_char(a, b)));
        }
        i = i + 1;
    }
    assert forall|k: int| 0 <= k < command.len() implies is_unicode_whitespace(
        #[trigger] command[k],
    ) by {
        assert(command[k] == selection@[a + k]);
    }
    None
}

/// `s` with every line feed turned into a space.
pub open spec fn newlines_to_spaces(s: Seq<char>) -> Seq<char> {
    Seq::new(s.len(), |k: int| if s[k] == '\n' { ' ' } else { s[k] })
}

/// The title of a chat started with `first_message`: the message on one
/// line, trimmed, cut to 30 characters with `...` when it is longer.
pub open spec fn spec_chat_title(first_message: Seq<char>) -> Seq<char> {
    let cleaned = trim_by(newlines_to_spaces(first_message), trimmed_chars(false));
    if cleaned.len() > 30 {
        cleaned.subrange(0, 30) + seq!['.', '.', '.']
    } else {
        cleaned
    }
}

/// The title of a chat started with `first_message`.
pub fn generate_chat_title(first_message: &str) -> (r: String)
    ensures
        r@ == spec_chat_title(first_message@),
{
    let ghost m = first_message@;
    let ghost mapped = newlines_to_spaces(m);
    let ghost ws = trimmed_chars(false);
    let (a, b) = trim_bounds(first_message, false);
    proof {
        let keep = |c: char| !ws(c);
        assert forall|k: int| 0 <= k < m.len() implies ws(#[trigger] mapped[k]) == ws(m[k]) by {}
        let a0 = find_first(m, keep);
        assert forall|k: int| 0 <= k < a implies !keep(#[trigger] mapped[k]) by {
            assert(ws(m[k]));
        }
        if a < b {
            assert(!ws(mapped[a as int]));
            assert(!ws(mapped[b - 1]));
            assert(is_first(mapped, keep, a as int));
            lemma_find_first(mapped, keep, a as int);
            assert forall|k: int| b <= k < mapped.len() implies !keep(#[trigger] mapped[k]) by {
                assert(ws(m[k]));
            }
            lemma_find_last(mapped, keep, b - 1);
        } else {
            assert(is_first(mapped, keep, m.len() as int)) by {
                assert forall|k: int| 0 <= k < mapped.len() implies !keep(#[trigger] mapped[k]) by {
                    if k < a {
                    } else {
                        assert(ws(m[k]));
                    }
                }
            }
            lemma_find_first(mapped, keep, m.len() as int);
        }
    }
    let ghost cleaned = trim_by(mapped, ws);
    let end = if b - a > 30 {
        a + 30
    } else {
        b
    };
    let mut title = String::new();
    let mut i: usize = a;
    while i < end
        invariant
            a <= i <= end <= b <= m.len() <= usize::MAX,
            m == first_message@,
            mapped == newlines_to_spaces(m),
            a < b ==> cleaned == mapped.subrange(a as int, b as int),
            title@ == mapped.subrange(a as int, i as int),
        decreases end - i,
    {
        let c = first_message.get_char(i);
        if c == '\n' {
            proof {
                reveal_strlit(" ");
            }
            title.append(" ");
        } else {
            push_char_at(&mut title, first_message, i);
        }
        i = i + 1;
        assert(title@ =~= mapped.subrange(a as int, i as int));
    }
    if a == b {
        assert(title@ =~= cleaned);
        return title;
    }
    if b - a > 30 {
        proof {
            reveal_strlit("...");
        }
        title.append("...");
        assert(title@ =~= cleaned.subrange(0, 30) + seq!['.', '.', '.']);
    } else {
        assert(title@ =~= cleaned);
    }
    title
}

/// Whether a character may stand in a plugin tool name as it is.
pub open spec fn is_tool_name_char(c: char) -> bool {
    ||| 'a' <= c <= 'z'
    ||| 'A' <= c <= 'Z'
    ||| '0' <= c <= '9'
    ||| c == '_'
    ||| c == '-'
}

/// A part of a plugin tool name: every other character becomes `_`; an empty
/// part becomes `unnamed`.
pub open spec fn spec_sanitize_tool_part(v: Seq<char>) -> Seq<char> {
    if v.len() == 0 {
        seq!['u', 'n', 'n', 'a', 'm', 'e', 'd']
    } else {
        Seq::new(v.len(), |k: int| if is_tool_name_char(v[k]) { v[k] } else { '_' })
    }
}

pub open spec fn tool_name_prefix() -> Seq<char> {
    seq!['p', 'l', 'u', 'g', 'i', 'n', ':', ':']
}

/// The AI tool name of a plugin's tool: `plugin::<plugin>::<tool>`.
pub open spec fn spec_plugin_tool_name(plugin_id: Seq<char>, tool_name: Seq<char>) -> Seq<char> {
    tool_name_prefix() + spec_sanitize_tool_part(plugin_id) + seq![':', ':']
        + spec_sanitize_tool_part(tool_name)
}

fn push_sanitized_tool_part(text: &mut String, value: &str)
    ensures
        final(text)@ == old(text)@ + spec_sanitize_tool_part(value@),
{
    let n = value.unicode_len();
    if n == 0 {
        proof {
            reveal_strlit("unnamed");
        }
        text.append("unnamed");
        return;
    }
    let ghost start = text@;
    let mut i: usize = 0;
    while i < n
        invariant
            i <= n == value@.len(),
            n > 0,
            text@ == start + Seq::new(
                i as nat,
                |k: int| if is_tool_name_char(value@[k]) { value@[k] } else { '_' },
            ),
        decreases n - i,
    {
        let c = value.get_char(i);
        let keep = ('a' <= c && c <= 'z') || ('A' <= c && c <= 'Z') || ('0' <= c && c <= '9')
            || c == '_' || c == '-';
        if keep {
            push_char_at(text, value, i);
        } else {
            proof {
                reveal_strlit("_");
            }
            text.append("_");
        }
        i = i + 1;
        assert(text@ =~= start + Seq::new(
            i as nat,
            |k: int| if is_tool_name_char(value@[k]) { value@[k] } else { '_' },
        ));
    }
}

/// The AI tool name of a plugin's tool.
pub fn native_plugin_ai_tool_name(plugin_id: &str, tool_name: &str) -> (r: String)
    ensures
        r@ == spec_plugin_tool_name(plugin_id@, tool_name@),
{
    proof {
        reveal_strlit("plugin::");
        reveal_strlit("::");
    }
    let mut text = String::from_str("plugin::");
    push_sanitized_tool_part(&mut text, plugin_id);
    text.append("::");
    push_sanitized_tool_part(&mut text, tool_name);
    text
}

/// Whether `tool_name` names a plugin tool.
pub fn is_native_plugin_ai_tool_name(tool_name: &str) -> (r: bool)
    ensures
        r == (tool_name@.len() >= 8 && tool_name@.subrange(0, 8) == tool_name_prefix()),
{
    let n = tool_name.unicode_len();
    if n < 8 {
        return false;
    }
    proof {
        reveal_strlit("plugin::");
    }
    let prefix = "plugin::";
    let mut i: usize = 0;
    while i < 8
        invariant
            i <= 8 <= n == tool_name@.len(),
            prefix@ == tool_name_prefix(),
            forall|k: int| 0 <= k < i ==> tool_name@[k] == tool_name_prefix()[k],
        decreases 8 - i,
    {
        if tool_name.get_char(i) != prefix.get_char(i) {
            assert(tool_name@.subrange(0, 8)[i as int] != tool_name_prefix()[i as int]);
            return false;
        }
        i = i + 1;
    }
    assert(tool_name@.subrange(0, 8) =~= tool_name_prefix());
    true
}

} // verus!
