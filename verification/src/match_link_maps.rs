//! Routes a source entry to the link that the rules ask for.

use crate::configuration::{rules, LinkMap, LinkMapView};
use crate::node::{lemma_branch_view, Node, NodeView};
use crate::text::{basename, extract_basename};
use regex::Regex;
use std::str::FromStr;
use vstd::prelude::*;

verus! {

/// Whether `pattern` is a regular expression that the regex engine accepts.
pub uninterp spec fn pattern_is_valid(pattern: Seq<char>) -> bool;

/// Whether the regular expression `pattern` matches somewhere in `text`.
/// Only meaningful for a valid pattern.
pub uninterp spec fn pattern_matches(pattern: Seq<char>, text: Seq<char>) -> bool;

/// Compiles `pattern` with `Regex::from_str` and searches `text` with
/// `Regex::is_match`. Taken on trust: compilation succeeds exactly for the
/// patterns that [`pattern_is_valid`] names, and for those the answer is the
/// one that [`pattern_matches`] names. A pattern that does not compile gives
/// `None`.
#[verifier::external_body]
fn match_pattern(pattern: &str, text: &str) -> (matched: Option<bool>)
    ensures
        matched == if pattern_is_valid(pattern@) {
            Some(pattern_matches(pattern@, text@))
        } else {
            None::<bool>
        },
{
    match Regex::from_str(pattern) {
        Ok(regex) => Some(regex.is_match(text)),
        Err(_) => None,
    }
}

/// Whether every rule holds a valid regular expression.
pub open spec fn all_valid(link_maps: Seq<LinkMapView>) -> bool {
    forall|i: int| 0 <= i < link_maps.len() ==> pattern_is_valid((#[trigger] link_maps[i]).regex)
}

/// The index of the last rule whose expression matches `name`, if any rule
/// does.
pub open spec fn last_match(name: Seq<char>, link_maps: Seq<LinkMapView>) -> Option<int>
    decreases link_maps.len(),
{
    if link_maps.len() == 0 {
        None
    } else if pattern_matches(link_maps.last().regex, name) {
        Some(link_maps.len() - 1)
    } else {
        last_match(name, link_maps.drop_last())
    }
}

/// The path of the entry called `name` in the directory `target`.
pub open spec fn destination(target: Seq<char>, name: Seq<char>) -> Seq<char> {
    target + seq!['/'] + name
}

/// The link that the rules ask for at `path`: none for the empty path or
/// where no rule matches its final segment; else a link in the target
/// directory of the last matching rule, under that segment, to `path`.
pub open spec fn route_path(path: Seq<char>, link_maps: Seq<LinkMapView>) -> Option<NodeView> {
    if path.len() == 0 {
        None
    } else {
        match last_match(basename(path), link_maps) {
            Some(i) => Some(
                NodeView::Link(destination(link_maps[i].target, basename(path)), path),
            ),
            None => None,
        }
    }
}

/// The link that the rules ask for in place of `node`. A link is never
/// routed; a directory is routed as a whole, by its own path.
pub open spec fn route(node: NodeView, link_maps: Seq<LinkMapView>) -> Option<NodeView> {
    match node {
        NodeView::Leaf(path) => route_path(path, link_maps),
        NodeView::Link(_, _) => None,
        NodeView::Branch(path, _) => route_path(path, link_maps),
    }
}

/// Whether a routing result is the value `expected`.
pub open spec fn is_route(found: Option<Node>, expected: Option<NodeView>) -> bool {
    match found {
        Some(link) => expected == Some(link@),
        None => expected is None,
    }
}

/// Among several matching rules the last one wins: the rule that
/// [`last_match`] picks matches, no later rule does, and no rule is picked
/// exactly when none matches.
pub proof fn lemma_last_match_wins(name: Seq<char>, link_maps: Seq<LinkMapView>)
    ensures
        match last_match(name, link_maps) {
            Some(i) => {
                &&& 0 <= i < link_maps.len()
                &&& pattern_matches(link_maps[i].regex, name)
                &&& forall|j: int|
                    i < j < link_maps.len() ==> !pattern_matches(
                        (#[trigger] link_maps[j]).regex,
                        name,
                    )
            },
            None => forall|j: int|
                0 <= j < link_maps.len() ==> !pattern_matches(
                    (#[trigger] link_maps[j]).regex,
                    name,
                ),
        },
    decreases link_maps.len(),
{
    if link_maps.len() > 0 && !pattern_matches(link_maps.last().regex, name) {
        let front = link_maps.drop_last();
        lemma_last_match_wins(name, front);
        match last_match(name, front) {
            Some(i) => {
                assert forall|j: int| i < j < link_maps.len() implies !pattern_matches(
                    (#[trigger] link_maps[j]).regex,
                    name,
                ) by {
                    if j < front.len() {
                        assert(front[j] == link_maps[j]);
                    }
                }
            },
            None => {
                assert forall|j: int| 0 <= j < link_maps.len() implies !pattern_matches(
                    (#[trigger] link_maps[j]).regex,
                    name,
                ) by {
                    if j < front.len() {
                        assert(front[j] == link_maps[j]);
                    }
                }
            },
        }
    }
}

/// Whether every rule of `link_maps` holds an expression that compiles.
pub fn link_maps_are_valid(link_maps: &[LinkMap]) -> (valid: bool)
    ensures
        valid == all_valid(rules(link_maps@)),
{
    let mut i: usize = 0;
    while i < link_maps.len()
        invariant
            i <= link_maps.len(),
            forall|j: int| 0 <= j < i ==> pattern_is_valid((#[trigger] rules(link_maps@)[j]).regex),
        decreases link_maps.len() - i,
    {
        assert(rules(link_maps@)[i as int] == link_maps@[i as int]@);
        if match_pattern(link_maps[i].regex.as_str(), "").is_none() {
            return false;
        }
        i += 1;
    }
    true
}

/// Routes `node` where every rule is valid, and says so where one is not:
/// `None` for a rule set with an expression that does not compile, else the
/// result of [`match_link_maps`].
pub fn try_match_link_maps(node: &Node, link_maps: &[LinkMap]) -> (found: Option<Option<Node>>)
    ensures
        found is Some == all_valid(rules(link_maps@)),
        found is Some ==> is_route(found->Some_0, route(node@, rules(link_maps@))),
{
    if link_maps_are_valid(link_maps) {
        Some(match_link_maps(node, link_maps))
    } else {
        None
    }
}

/// The link that the rules ask for in place of `node`, if they ask for one.
pub fn match_link_maps(node: &Node, link_maps: &[LinkMap]) -> (found: Option<Node>)
    requires
        all_valid(rules(link_maps@)),
    ensures
        is_route(found, route(node@, rules(link_maps@))),
{
    match node {
        Node::Leaf(path) => find_link_map_match(path, link_maps),
        Node::Link(_, _) => None,
        Node::Branch(path, children) => {
            proof {
                lemma_branch_view(*path, *children);
            }
            find_link_map_match(path, link_maps)
        },
    }
}

/// The link that the rules ask for at `path`: see [`route_path`].
pub fn find_link_map_match(path: &String, link_maps: &[LinkMap]) -> (found: Option<Node>)
    requires
        all_valid(rules(link_maps@)),
    ensures
        is_route(found, route_path(path@, rules(link_maps@))),
{
    if path.as_str().is_empty() {
        return None;
    }
    let name = extract_basename(path.as_str());
    let ghost all = rules(link_maps@);
    let mut value: Option<usize> = None;
    let mut i: usize = 0;
    while i < link_maps.len()
        invariant
            i <= link_maps.len(),
            all == rules(link_maps@),
            all_valid(all),
            name@ == basename(path@),
            match value {
                Some(index) => last_match(name@, all.take(i as int)) == Some(index as int),
                None => last_match(name@, all.take(i as int)) is None,
            },
        decreases link_maps.len() - i,
    {
        proof {
            assert(all.take(i + 1).drop_last() =~= all.take(i as int));
            assert(all.take(i + 1).last() == link_maps@[i as int]@);
            assert(all[i as int] == link_maps@[i as int]@);
        }
        if is_link_map_match(name.as_str(), &link_maps[i]) {
            value = Some(i);
        }
        i += 1;
    }
    assert(all.take(i as int) =~= all);
    match value {
        Some(index) => {
            proof {
                lemma_last_match_wins(name@, all);
                assert(all[index as int] == link_maps@[index as int]@);
            }
            let link_map = &link_maps[index];
            let mut link_path = link_map.target.clone();
            link_path.append("/");
            link_path.append(name.as_str());
            proof {
                reveal_strlit("/");
                assert("/"@ =~= seq!['/']);
            }
            Some(Node::Link(link_path, path.clone()))
        },
        None => None,
    }
}

/// Whether the expression of `link_map` matches somewhere in `basename`.
pub fn is_link_map_match(basename: &str, link_map: &LinkMap) -> (matched: bool)
    requires
        pattern_is_valid(link_map.regex@),
    ensures
        matched == pattern_matches(link_map.regex@, basename@),
{
    match match_pattern(link_map.regex.as_str(), basename) {
        Some(matched) => matched,
        None => false,
    }
}

} // verus!
