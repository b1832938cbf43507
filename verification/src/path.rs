//! Element paths: where an element stands in the tree, written as one
//! segment per ancestor, each made of the short name of the element's type
//! and its key, with `/` between the segments.

use vstd::prelude::*;
use vstd::string::{StrSliceExecFns, StringExecFns};

verus! {

/// Whether the generic arguments of the type name `s` begin at `end`: there
/// stands the first `<`, or the name ends there without one.
pub open spec fn is_generics_start(s: Seq<char>, end: int) -> bool {
    &&& 0 <= end <= s.len()
    &&& end < s.len() ==> s[end] == '<'
    &&& forall|k: int| 0 <= k < end ==> s[k] != '<'
}

/// Whether a `::` ends just before `i` in `s`.
pub open spec fn follows_separator(s: Seq<char>, i: int) -> bool {
    2 <= i <= s.len() && s[i - 2] == ':' && s[i - 1] == ':'
}

/// Whether the last segment of the module path `s[..end]` begins at `start`:
/// just behind the last `::`, or at the front if there is none.
pub open spec fn is_name_start(s: Seq<char>, end: int, start: int) -> bool {
    &&& 0 <= start <= end
    &&& start == 0 || follows_separator(s, start)
    &&& forall|k: int| start < k <= end ==> !follows_separator(s, k)
}

/// Where the generic arguments of the type name `s` begin.
pub open spec fn generics_start(s: Seq<char>) -> int {
    choose|end: int| is_generics_start(s, end)
}

/// Where the last segment of the module path before the generic arguments
/// of `s` begins.
pub open spec fn name_start(s: Seq<char>) -> int {
    choose|start: int| is_name_start(s, generics_start(s), start)
}

/// The type name `s` without its module path and its generic arguments.
pub open spec fn short_type_name(s: Seq<char>) -> Seq<char> {
    s.subrange(name_start(s), generics_start(s))
}

/// The decimal digit `d`.
pub open spec fn digit(d: nat) -> char {
    if d == 0 {
        '0'
    } else if d == 1 {
        '1'
    } else if d == 2 {
        '2'
    } else if d == 3 {
        '3'
    } else if d == 4 {
        '4'
    } else if d == 5 {
        '5'
    } else if d == 6 {
        '6'
    } else if d == 7 {
        '7'
    } else if d == 8 {
        '8'
    } else {
        '9'
    }
}

/// The number `n` written in decimal, without leading zeros.
pub open spec fn decimal(n: nat) -> Seq<char>
    decreases n,
{
    if n < 10 {
        seq![digit(n)]
    } else {
        decimal(n / 10).push(digit(n % 10))
    }
}

/// The path segment of an element: the short name of its type, an
/// underscore, and its key.
pub open spec fn path_segment(full_name: Seq<char>, inner_key: u64) -> Seq<char> {
    short_type_name(full_name) + seq!['_'] + decimal(inner_key as nat)
}

/// The path `path` with the segment `segment` behind it. One `/` stands
/// between them; the empty path gives the segment alone.
pub open spec fn joined(path: Seq<char>, segment: Seq<char>) -> Seq<char> {
    if path.len() == 0 {
        segment
    } else if path.last() == '/' {
        path + segment
    } else {
        path + seq!['/'] + segment
    }
}

fn digit_str(d: u64) -> (s: &'static str)
    requires
        d < 10,
    ensures
        s@ == seq![digit(d as nat)],
{
    proof {
        reveal_strlit("0");
        reveal_strlit("1");
        reveal_strlit("2");
        reveal_strlit("3");
        reveal_strlit("4");
        reveal_strlit("5");
        reveal_strlit("6");
        reveal_strlit("7");
        reveal_strlit("8");
        reveal_strlit("9");
    }
    let s = if d == 0 {
        "0"
    } else if d == 1 {
        "1"
    } else if d == 2 {
        "2"
    } else if d == 3 {
        "3"
    } else if d == 4 {
        "4"
    } else if d == 5 {
        "5"
    } else if d == 6 {
        "6"
    } else if d == 7 {
        "7"
    } else if d == 8 {
        "8"
    } else {
        "9"
    };
    assert(s@ =~= seq![digit(d as nat)]);
    s
}

/// Writes `n` in decimal.
pub fn to_decimal(n: u64) -> (s: String)
    ensures
        s@ == decimal(n as nat),
    decreases n,
{
    if n < 10 {
        String::from_str(digit_str(n))
    } else {
        let mut s = to_decimal(n / 10);
        s.append(digit_str(n % 10));
        assert(s@ =~= decimal(n as nat));
        s
    }
}

/// The name of an element type as it is shown in paths: `full_name` without
/// the generic arguments (what follows the first `<`) and without the module
/// path (what stands before the last `::` of the rest).
pub fn element_type_name(full_name: &str) -> (name: String)
    ensures
        name@ == short_type_name(full_name@),
{
    let len = full_name.unicode_len();
    let mut end: usize = 0;
    while end < len && full_name.get_char(end) != '<'
        invariant
            end <= len,
            len == full_name@.len(),
            forall|k: int| 0 <= k < end ==> full_name@[k] != '<',
        decreases len - end,
    {
        end += 1;
    }
    let mut start: usize = end;
    while start >= 2 && !(full_name.get_char(start - 2) == ':' && full_name.get_char(start - 1)
        == ':')
        invariant
            start <= end <= len,
            len == full_name@.len(),
            forall|k: int| start < k <= end ==> !follows_separator(full_name@, k),
        decreases start,
    {
        start -= 1;
    }
    if start < 2 {
        start = 0;
    }
    proof {
        let s = full_name@;
        assert(is_generics_start(s, end as int));
        let e = generics_start(s);
        assert(is_generics_start(s, e));
        assert(e == end) by {
            if e < end {
                assert(s[e] != '<');
            }
            if end < e {
                assert(s[end as int] != '<');
            }
        }
        assert(is_name_start(s, end as int, start as int));
        let b = name_start(s);
        assert(is_name_start(s, e, b));
        assert(b == start) by {
            if b < start {
                assert(!follows_separator(s, start as int));
            }
            if start < b {
                assert(!follows_separator(s, b));
            }
        }
    }
    String::from_str(full_name.substring_char(start, end))
}

/// The path of the element of type `full_name` and key `inner_key` that
/// stands below `path`.
pub fn join_element_path(path: &str, full_name: &str, inner_key: u64) -> (child_path: String)
    ensures
        child_path@ == joined(path@, path_segment(full_name@, inner_key)),
{
    proof {
        reveal_strlit("_");
        reveal_strlit("/");
    }
    let mut segment = element_type_name(full_name);
    segment.append("_");
    let number = to_decimal(inner_key);
    segment.append(number.as_str());
    assert(segment@ =~= path_segment(full_name@, inner_key));
    let len = path.unicode_len();
    if len == 0 {
        assert(path@ =~= Seq::<char>::empty());
        segment
    } else if path.get_char(len - 1) == '/' {
        let mut child_path = String::from_str(path);
        child_path.append(segment.as_str());
        child_path
    } else {
        let mut child_path = String::from_str(path);
        child_path.append("/");
        child_path.append(segment.as_str());
        assert(child_path@ =~= path@ + seq!['/'] + segment@);
        child_path
    }
}

} // verus!
