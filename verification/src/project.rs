//! The labels of the windows in which projects are shown.

use crate::text::{
    char_is_alnum, chars_of, decimal, decimal_string, is_ascii_alnum, string_of, trailing_start,
    without_trailing,
};
use vstd::prelude::*;
use vstd::string::StringExecFns;

verus! {

/// The character that stands for `c` in a label: `c` itself where it is an
/// ASCII letter or digit, else a dash.
pub open spec fn label_char(c: char) -> char {
    if is_ascii_alnum(c) {
        c
    } else {
        '-'
    }
}

/// The position of the first character at or after `i` that is no dash.
pub open spec fn skip_dashes(s: Seq<char>, i: int) -> int
    decreases s.len() - i,
{
    if 0 <= i < s.len() && s[i] == '-' {
        skip_dashes(s, i + 1)
    } else {
        i
    }
}

/// `s` without the dashes at its start and at its end.
pub open spec fn without_edge_dashes(s: Seq<char>) -> Seq<char> {
    let kept = without_trailing(s, '-');
    kept.skip(skip_dashes(kept, 0))
}

/// The label that a project id gives: its characters, each that is no
/// ASCII letter or digit replaced by a dash, without the dashes at either
/// end; `project` where nothing is left.
pub open spec fn base_label(project_id: Seq<char>) -> Seq<char> {
    let plain = without_edge_dashes(project_id.map_values(|c: char| label_char(c)));
    if plain.len() == 0 {
        "project"@
    } else {
        plain
    }
}

/// Makes the label of a project's window out of the project id.
pub fn window_label(project_id: &str) -> (r: String)
    ensures
        r@ == base_label(project_id@),
{
    let v = chars_of(project_id);
    let ghost mapped = project_id@.map_values(|c: char| label_char(c));
    let mut plain: Vec<char> = Vec::new();
    let mut i: usize = 0;
    while i < v.len()
        invariant
            i <= v.len(),
            v@ == project_id@,
            mapped == project_id@.map_values(|c: char| label_char(c)),
            plain@ == mapped.take(i as int),
        decreases v.len() - i,
    {
        let c = v[i];
        let m = if char_is_alnum(c) {
            c
        } else {
            '-'
        };
        plain.push(m);
        proof {
            assert(mapped.take(i + 1) =~= mapped.take(i as int).push(mapped[i as int]));
        }
        i += 1;
    }
    proof {
        assert(mapped.take(v.len() as int) =~= mapped);
    }
    let end = trailing_start(&plain, '-');
    let ghost kept = plain@.take(end as int);
    let mut start: usize = 0;
    while start < end && plain[start] == '-'
        invariant
            start <= end <= plain.len(),
            kept == plain@.take(end as int),
            skip_dashes(kept, start as int) == skip_dashes(kept, 0),
        decreases end - start,
    {
        start += 1;
    }
    proof {
        assert(plain@.subrange(start as int, end as int) =~= kept.skip(start as int));
    }
    if start == end {
        "project".to_owned()
    } else {
        string_of(&plain, start, end)
    }
}

/// The `n`-th label to try for a window, where the labels before it are
/// taken: the base label for zero, then the base label with a dash and the
/// number.
pub open spec fn numbered(base: Seq<char>, n: nat) -> Seq<char> {
    if n == 0 {
        base
    } else {
        base + seq!['-'] + decimal(n)
    }
}

/// Makes the `counter`-th label to try for a window.
pub fn numbered_label(base: &str, counter: usize) -> (r: String)
    ensures
        r@ == numbered(base@, counter as nat),
{
    let mut out = base.to_owned();
    if counter > 0 {
        out.push('-');
        out.append(decimal_string(counter).as_str());
    }
    out
}

} // verus!
