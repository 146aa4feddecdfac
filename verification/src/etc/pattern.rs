use vstd::prelude::*;

verus! {

/// What the regular expression `pattern` finds in `text`: for each match, in
/// order and without overlap, the text of each of its groups (the group 0 is the
/// whole match), with `None` for a group that took no part in the match. It is
/// `None` where the pattern is not a regular expression.
pub uninterp spec fn captures_of(pattern: Seq<char>, text: Seq<char>) -> Option<
    Seq<Seq<Option<Seq<char>>>>,
>;

/// What the groups of one match hold.
pub open spec fn groups_view(groups: Vec<Option<Vec<char>>>) -> Seq<Option<Seq<char>>> {
    Seq::new(
        groups@.len(),
        |i: int|
            match groups@[i] {
                Some(group) => Some(group@),
                None => None,
            },
    )
}

/// What the groups of a sequence of matches hold.
pub open spec fn matches_view(found: Seq<Vec<Option<Vec<char>>>>) -> Seq<Seq<Option<Seq<char>>>> {
    Seq::new(found.len(), |i: int| groups_view(found[i]))
}

/// Compiles the pattern with `regex::Regex::new` and collects what
/// `Regex::captures_iter` yields on the text: the result is the one that
/// `captures_of` names, and nothing more is claimed of it.
#[verifier::external_body]
pub(crate) fn captures(pattern: &str, text: &str) -> (r: Option<Vec<Vec<Option<Vec<char>>>>>)
    ensures
        match r {
            Some(found) => captures_of(pattern@, text@) == Some(matches_view(found@)),
            None => captures_of(pattern@, text@) is None,
        },
{
    let re = regex::Regex::new(pattern).ok()?;
    Some(
        re.captures_iter(text)
            .map(|caps| caps.iter().map(|m| m.map(|m| m.as_str().chars().collect())).collect())
            .collect(),
    )
}

} // verus!
