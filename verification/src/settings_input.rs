//! Settings text input helpers: the outcome of applying a draft, and where a
//! text selection falls on one rendered line of a multi-line input.
use vstd::prelude::*;

use core::ops::Range;

use crate::labels::push_char_at;
use vstd::string::{StrSliceExecFns, StringExecFns};

verus! {

/// What applying a settings input draft did.
#[derive(Clone, Copy, Debug, PartialEq, Eq, Structural)]
pub enum SettingsInputDraftApply {
    Applied,
    Invalid,
    Unhandled,
}

impl From<Option<()>> for SettingsInputDraftApply {
    fn from(value: Option<()>) -> (r: Self) {
        if value.is_some() {
            SettingsInputDraftApply::Applied
        } else {
            SettingsInputDraftApply::Invalid
        }
    }
}

impl vstd::std_specs::convert::FromSpecImpl<Option<()>> for SettingsInputDraftApply {
    open spec fn obeys_from_spec() -> bool {
        true
    }

    open spec fn from_spec(value: Option<()>) -> Self {
        if value is Some {
            SettingsInputDraftApply::Applied
        } else {
            SettingsInputDraftApply::Invalid
        }
    }
}

/// Where a selection (UTF-16 offsets into the whole input) falls on the line
/// `line`: an empty selection is a caret, shown when it lies on the line
/// (ends included); a non-empty one is the part overlapping the line. Both
/// are given relative to the line's start.
pub open spec fn spec_line_selection(
    selection: Option<(usize, usize)>,
    line: (usize, usize),
) -> (Option<(int, int)>, Option<int>) {
    match selection {
        None => (None, None),
        Some((s, e)) => if s == e {
            if line.0 <= s <= line.1 {
                (None, Some(s - line.0))
            } else {
                (None, None)
            }
        } else {
            let start = if s > line.0 {
                s
            } else {
                line.0
            };
            let end = if e < line.1 {
                e
            } else {
                line.1
            };
            if start < end {
                (Some((start - line.0, end - line.0)), None)
            } else {
                (None, None)
            }
        },
    }
}

pub open spec fn range_pair(r: Range<usize>) -> (usize, usize) {
    (r.start, r.end)
}

/// Maps a selection of a multi-line settings input onto one rendered line.
pub fn settings_multiline_line_selection(
    selection: Option<&Range<usize>>,
    line_range: &Range<usize>,
) -> (r: (Option<Range<usize>>, Option<usize>))
    ensures
        ({
            let expected = spec_line_selection(
                match selection {
                    Some(s) => Some(range_pair(*s)),
                    None => None,
                },
                range_pair(*line_range),
            );
            &&& match (r.0, expected.0) {
                (Some(got), Some((s, e))) => got.start == s && got.end == e,
                (None, None) => true,
                _ => false,
            }
            &&& match (r.1, expected.1) {
                (Some(got), Some(c)) => got == c,
                (None, None) => true,
                _ => false,
            }
        }),
{
    let selection = match selection {
        Some(s) => s,
        None => return (None, None),
    };
    if selection.start == selection.end {
        let caret = selection.start;
        if caret >= line_range.start && caret <= line_range.end {
            return (None, Some(caret - line_range.start));
        }
        return (None, None);
    }
    let start = if selection.start > line_range.start {
        selection.start
    } else {
        line_range.start
    };
    let end = if selection.end < line_range.end {
        selection.end
    } else {
        line_range.end
    };
    if start < end {
        (Some((start - line_range.start)..(end - line_range.start)), None)
    } else {
        (None, None)
    }
}


/// How many UTF-16 code units encode `c`.
pub open spec fn utf16_units(c: char) -> nat {
    if (c as u32) < 0x10000 {
        1
    } else {
        2
    }
}

/// The length of `s` in UTF-16 code units.
pub open spec fn utf16_width(s: Seq<char>) -> nat
    decreases s.len(),
{
    if s.len() == 0 {
        0
    } else {
        utf16_width(s.drop_last()) + utf16_units(s.last())
    }
}

/// The lines of `s` (split at each `\n`, a trailing one leaving an empty
/// last line), each with the UTF-16 offsets where it starts and ends.
pub open spec fn multiline_lines(s: Seq<char>) -> Seq<(Seq<char>, nat, nat)>
    decreases s.len(),
{
    if s.len() == 0 {
        seq![(Seq::empty(), 0nat, 0nat)]
    } else {
        let prev = multiline_lines(s.drop_last());
        let w = utf16_width(s);
        if s.last() == '\n' {
            prev.push((Seq::empty(), w, w))
        } else {
            let l = prev.last();
            prev.update(prev.len() - 1, (l.0.push(s.last()), l.1, w))
        }
    }
}

proof fn lemma_multiline_lines_last(s: Seq<char>)
    ensures
        multiline_lines(s).len() >= 1,
        multiline_lines(s).last().2 == utf16_width(s),
        multiline_lines(s).last().1 <= multiline_lines(s).last().2,
    decreases s.len(),
{
    if s.len() > 0 {
        lemma_multiline_lines_last(s.drop_last());
    }
}

proof fn lemma_utf16_width_prefix(s: Seq<char>, i: int)
    requires
        0 <= i <= s.len(),
    ensures
        utf16_width(s.take(i)) <= utf16_width(s),
    decreases s.len() - i,
{
    if i < s.len() {
        lemma_utf16_width_prefix(s, i + 1);
        assert(s.take(i + 1).drop_last() =~= s.take(i));
    } else {
        assert(s.take(i) =~= s);
    }
}

/// The line ranges tile the input: the first starts at 0, each next one
/// starts one unit (the line break) after the previous one ends, no range is
/// reversed, and the last ends at the input's UTF-16 length.
pub proof fn lemma_multiline_ranges_tile(s: Seq<char>)
    ensures
        multiline_lines(s).len() >= 1,
        multiline_lines(s)[0].1 == 0,
        multiline_lines(s).last().2 == utf16_width(s),
        forall|k: int| 0 <= k < multiline_lines(s).len() ==> #[trigger] multiline_lines(s)[k].1 <= multiline_lines(s)[k].2,
        forall|k: int|
            0 <= k < multiline_lines(s).len() - 1 ==> #[trigger] multiline_lines(s)[k + 1].1
                == multiline_lines(s)[k].2 + 1,
    decreases s.len(),
{
    if s.len() > 0 {
        let p = s.drop_last();
        lemma_multiline_ranges_tile(p);
        let prev = multiline_lines(p);
        let cur = multiline_lines(s);
        if s.last() == '\n' {
            assert(utf16_units('\n') == 1);
            assert forall|k: int| 0 <= k < cur.len() - 1 implies #[trigger] cur[k + 1].1 == cur[k].2 + 1 by {
                if k < prev.len() - 1 {
                    assert(cur[k + 1] == prev[k + 1]);
                }
            }
        } else {
            assert forall|k: int| 0 <= k < cur.len() - 1 implies #[trigger] cur[k + 1].1 == cur[k].2 + 1 by {
                assert(cur[k] == prev[k]);
            }
        }
    }
}

/// Splits a multi-line settings input into its lines, each with its range
/// in UTF-16 code units (the unit text selections are tracked in).
pub fn settings_multiline_line_ranges(value: &str) -> (r: Vec<(Range<usize>, String)>)
    requires
        utf16_width(value@) <= usize::MAX,
    ensures
        r@.len() == multiline_lines(value@).len(),
        forall|k: int|
            0 <= k < r@.len() ==> {
                let line = #[trigger] multiline_lines(value@)[k];
                &&& r@[k].0.start == line.1
                &&& r@[k].0.end == line.2
                &&& r@[k].1@ == line.0
            },
{
    let n = value.unicode_len();
    let mut ranges: Vec<(Range<usize>, String)> = Vec::new();
    let mut line = String::new();
    let mut start: usize = 0;
    let mut offset: usize = 0;
    let mut i: usize = 0;
    while i < n
        invariant
            i <= n == value@.len(),
            utf16_width(value@) <= usize::MAX,
            ({
                let ls = multiline_lines(value@.take(i as int));
                &&& ranges@.len() + 1 == ls.len()
                &&& forall|k: int|
                    0 <= k < ranges@.len() ==> {
                        let l = #[trigger] ls[k];
                        &&& ranges@[k].0.start == l.1
                        &&& ranges@[k].0.end == l.2
                        &&& ranges@[k].1@ == l.0
                    }
                &&& line@ == ls.last().0
                &&& start == ls.last().1
                &&& offset == ls.last().2
            }),
        decreases n - i,
    {
        let ghost before = value@.take(i as int);
        let ghost after = value@.take(i + 1);
        proof {
            assert(after.drop_last() =~= before);
            assert(after.last() == value@[i as int]);
            lemma_multiline_lines_last(before);
            lemma_multiline_lines_last(after);
            lemma_utf16_width_prefix(value@, i + 1);
        }
        let c = value.get_char(i);
        let units: usize = if (c as u32) < 0x10000 {
            1
        } else {
            2
        };
        assert(utf16_width(after) == utf16_width(before) + units);
        if c == '\n' {
            let mut done = String::new();
            core::mem::swap(&mut done, &mut line);
            ranges.push((start..offset, done));
            offset = offset + units;
            start = offset;
        } else {
            push_char_at(&mut line, value, i);
            offset = offset + units;
        }
        i = i + 1;
    }
    proof {
        assert(value@.take(n as int) =~= value@);
    }
    ranges.push((start..offset, line));
    ranges
}
} // verus!
