//! Names of the XML files in the export archive: a file such as
//! `EinheitenSolar_12.xml` belongs to the table whose schema is named by the
//! part before the first `_` or `.`, and its Parquet file is named by the
//! part before the first `.`.

use vstd::prelude::*;

verus! {

/// The index of the first character of `s` that satisfies `p`.
pub open spec fn first_index(s: Seq<char>, p: spec_fn(char) -> bool) -> Option<int>
    decreases s.len(),
{
    if s.len() == 0 {
        None
    } else {
        match first_index(s.drop_last(), p) {
            Some(i) => Some(i),
            None => if p(s.last()) {
                Some(s.len() - 1)
            } else {
                None
            },
        }
    }
}

pub open spec fn is_table_separator(c: char) -> bool {
    c == '_' || c == '.'
}

pub open spec fn is_dot(c: char) -> bool {
    c == '.'
}

proof fn lemma_first_index(s: Seq<char>, p: spec_fn(char) -> bool)
    ensures
        first_index(s, p) matches Some(i) ==> 0 <= i < s.len() && p(s[i]) && forall|k: int|
            0 <= k < i ==> !p(#[trigger] s[k]),
        first_index(s, p) is None ==> forall|k: int| 0 <= k < s.len() ==> !p(#[trigger] s[k]),
    decreases s.len(),
{
    if s.len() > 0 {
        let prefix = s.drop_last();
        lemma_first_index(prefix, p);
        assert forall|k: int| 0 <= k < prefix.len() implies prefix[k] == s[k] by {}
    }
}

/// The character that ends the prefix: `.` alone, or `_` and `.`.
pub open spec fn cut_at(dot_only: bool) -> spec_fn(char) -> bool {
    if dot_only {
        |c: char| is_dot(c)
    } else {
        |c: char| is_table_separator(c)
    }
}

/// The part of `name` before the first character where it is cut, where
/// there is one.
fn prefix_before(name: &str, dot_only: bool) -> (r: Option<String>)
    ensures
        match first_index(name@, cut_at(dot_only)) {
            Some(i) => r matches Some(prefix) && prefix@ == name@.take(i),
            None => r is None,
        },
{
    let ghost p = cut_at(dot_only);
    proof {
        lemma_first_index(name@, p);
    }
    let n = name.unicode_len();
    for i in 0..n
        invariant
            n == name@.len(),
            p == cut_at(dot_only),
            forall|k: int| 0 <= k < i ==> !p(#[trigger] name@[k]),
            first_index(name@, p) matches Some(j) ==> 0 <= j < name@.len() && p(name@[j])
                && forall|k: int| 0 <= k < j ==> !p(#[trigger] name@[k]),
            first_index(name@, p) is None ==> forall|k: int|
                0 <= k < name@.len() ==> !p(#[trigger] name@[k]),
    {
        let c = name.get_char(i);
        let hit = if dot_only {
            c == '.'
        } else {
            c == '_' || c == '.'
        };
        if hit {
            assert(p(name@[i as int]));
            let prefix = name.substring_char(0, i);
            return Some(String::from_str(prefix));
        }
    }
    None
}

/// The table an archive file belongs to: its name up to the first `_` or
/// `.`; `None` where the name holds neither.
pub fn table_prefix(name: &str) -> (r: Option<String>)
    ensures
        match first_index(name@, |c: char| is_table_separator(c)) {
            Some(i) => r matches Some(prefix) && prefix@ == name@.take(i),
            None => r is None,
        },
{
    prefix_before(name, false)
}

/// The stem of an archive file's name: its name up to the first `.`;
/// `None` where the name holds none.
pub fn file_stem(name: &str) -> (r: Option<String>)
    ensures
        match first_index(name@, |c: char| is_dot(c)) {
            Some(i) => r matches Some(stem) && stem@ == name@.take(i),
            None => r is None,
        },
{
    prefix_before(name, true)
}

} // verus!
