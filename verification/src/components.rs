//! Which of the E/N/Z components a miniSEED stream carries, read from its
//! source identifier, and the bookkeeping of which components were seen.

use vstd::prelude::*;
use vstd::string::*;

verus! {

/// Separators between the fields of a source identifier (`FDSN:NET_STA_LOC_B_S_S`
/// or `NET.STA.LOC.CHA`).
pub open spec fn is_field_separator(c: char) -> bool {
    c == '_' || c == '.'
}

/// Index at which the last separator-delimited field of `s` starts
/// (`s.len()` when `s` ends with a separator, `0` when it has none).
pub open spec fn last_field_start(s: Seq<char>) -> int
    decreases s.len(),
{
    if s.len() == 0 {
        0
    } else if is_field_separator(s.last()) {
        s.len() as int
    } else {
        last_field_start(s.drop_last())
    }
}

/// ASCII upper-casing of a single character; other characters are unchanged.
pub open spec fn ascii_upper(c: char) -> char {
    if 97 <= (c as int) <= 122 {
        ((c as int) - 32) as char
    } else {
        c
    }
}

/// The component named by the first character of a channel field.
pub open spec fn component_code(c: char) -> Option<char> {
    let u = ascii_upper(c);
    if u == 'Z' {
        Some('Z')
    } else if u == 'N' || u == '2' {
        Some('N')
    } else if u == 'E' || u == '1' {
        Some('E')
    } else {
        None
    }
}

/// The component of a stream: decided by the first character of the last
/// field of its source identifier; `None` when that field is empty or its
/// first character names no component.
pub open spec fn component_of_sid(sid: Seq<char>) -> Option<char> {
    let start = last_field_start(sid);
    if start >= sid.len() {
        None
    } else {
        component_code(sid[start])
    }
}

proof fn lemma_last_field_start(s: Seq<char>, i: int)
    requires
        0 <= i <= s.len(),
        i == 0 || is_field_separator(s[i - 1]),
        forall|j: int| i <= j < s.len() ==> !is_field_separator(#[trigger] s[j]),
    ensures
        last_field_start(s) == i,
    decreases s.len(),
{
    if s.len() > i {
        let t = s.drop_last();
        assert(!is_field_separator(s[s.len() - 1]));
        assert forall|j: int| i <= j < t.len() implies !is_field_separator(#[trigger] t[j]) by {
            assert(t[j] == s[j]);
        }
        if i > 0 {
            assert(t[i - 1] == s[i - 1]);
        }
        lemma_last_field_start(t, i);
    }
}

fn code_of_char(c: char) -> (r: Option<char>)
    ensures
        r == component_code(c),
{
    if c == 'Z' || c == 'z' {
        Some('Z')
    } else if c == 'N' || c == 'n' || c == '2' {
        Some('N')
    } else if c == 'E' || c == 'e' || c == '1' {
        Some('E')
    } else {
        proof {
            if 97 <= (c as int) <= 122 {
                assert(ascii_upper(c) != 'Z' && ascii_upper(c) != 'N' && ascii_upper(c) != 'E');
            }
        }
        None
    }
}

/// The component (`'E'`, `'N'` or `'Z'`) a source identifier names: the first
/// character of its last `_`/`.`-separated field, upper-cased, where `1`
/// stands for E and `2` for N.
pub fn component_of(sid: &str) -> (r: Option<char>)
    ensures
        r == component_of_sid(sid@),
{
    let n = sid.unicode_len();
    let mut i = n;
    loop
        invariant
            n == sid@.len(),
            i <= n,
            forall|j: int| i <= j < n ==> !is_field_separator(#[trigger] sid@[j]),
        ensures
            n == sid@.len(),
            i <= n,
            forall|j: int| i <= j < n ==> !is_field_separator(#[trigger] sid@[j]),
            i == 0 || is_field_separator(sid@[i - 1]),
        decreases i,
    {
        if i == 0 {
            break;
        }
        let c = sid.get_char(i - 1);
        if c == '_' || c == '.' {
            break;
        }
        i = i - 1;
    }
    proof {
        lemma_last_field_start(sid@, i as int);
    }
    if i >= n {
        None
    } else {
        code_of_char(sid.get_char(i))
    }
}

/// The components every input must carry, in the order they are checked.
pub open spec fn required_components() -> Seq<char> {
    seq!['E', 'N', 'Z']
}

/// The first of E, N, Z that `seen` lacks, if any.
pub open spec fn first_missing_component(seen: Seq<char>) -> Option<char> {
    if !seen.contains('E') {
        Some('E')
    } else if !seen.contains('N') {
        Some('N')
    } else if !seen.contains('Z') {
        Some('Z')
    } else {
        None
    }
}

fn contains_char(v: &Vec<char>, c: char) -> (r: bool)
    ensures
        r == v@.contains(c),
{
    let mut i: usize = 0;
    while i < v.len()
        invariant
            i <= v.len(),
            forall|j: int| 0 <= j < i ==> v@[j] != c,
        decreases v.len() - i,
    {
        if v[i] == c {
            assert(v@[i as int] == c);
            return true;
        }
        i = i + 1;
    }
    false
}

/// The first of E, N, Z not among the components seen; `None` when all three
/// are present.
pub fn missing_component(seen: &Vec<char>) -> (r: Option<char>)
    ensures
        r == first_missing_component(seen@),
{
    if !contains_char(seen, 'E') {
        Some('E')
    } else if !contains_char(seen, 'N') {
        Some('N')
    } else if !contains_char(seen, 'Z') {
        Some('Z')
    } else {
        None
    }
}

/// Records that component `c` was seen, keeping first-seen order and never
/// listing a component twice.
pub fn note_component(seen: &mut Vec<char>, c: char)
    ensures
        final(seen)@ == (if old(seen)@.contains(c) {
            old(seen)@
        } else {
            old(seen)@.push(c)
        }),
{
    if !contains_char(seen, c) {
        seen.push(c);
    }
}

/// Noting a component keeps the list free of duplicates and makes it contain
/// exactly the components it held before plus the new one.
pub proof fn lemma_note_component_keeps_set(before: Seq<char>, c: char)
    requires
        before.no_duplicates(),
    ensures
        ({
            let after = if before.contains(c) {
                before
            } else {
                before.push(c)
            };
            &&& after.no_duplicates()
            &&& forall|x: char| after.contains(x) <==> (before.contains(x) || x == c)
        }),
{
    if !before.contains(c) {
        let after = before.push(c);
        assert forall|i: int, j: int| 0 <= i < after.len() && 0 <= j < after.len() && i != j implies
            after[i] != after[j] by {
            if i == before.len() as int {
                assert(after[j] == before[j]);
            } else if j == before.len() as int {
                assert(after[i] == before[i]);
            }
        }
        assert forall|x: char| after.contains(x) <==> (before.contains(x) || x == c) by {
            if after.contains(x) {
                let k = choose|k: int| 0 <= k < after.len() && after[k] == x;
                if k < before.len() {
                    assert(before[k] == x);
                }
            }
            if before.contains(x) {
                let k = choose|k: int| 0 <= k < before.len() && before[k] == x;
                assert(after[k] == x);
            }
            if x == c {
                assert(after[before.len() as int] == c);
            }
        }
    }
}

} // verus!
