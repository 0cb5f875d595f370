//! Blink-style nesting cap. A token filter between html5ever's tokenizer and
//! tree builder swallows start tags beyond `MAX_DEPTH` (and their matching end
//! tags), so deeply nested input parses flattened at the cap.
//!
//! This module holds the filter's state and its decisions; the tokenizer glue
//! that feeds it tags lives with the parser driver.

use vstd::prelude::*;

use crate::text::str_eq;

verus! {

/// Maximum element nesting depth, matching Chromium.
pub const MAX_DEPTH: usize = 512;

/// The HTML void elements: their start tags never deepen the tree.
pub open spec fn is_void_name(name: Seq<char>) -> bool {
    ||| name == "area"@
    ||| name == "base"@
    ||| name == "basefont"@
    ||| name == "bgsound"@
    ||| name == "br"@
    ||| name == "col"@
    ||| name == "embed"@
    ||| name == "frame"@
    ||| name == "hr"@
    ||| name == "img"@
    ||| name == "input"@
    ||| name == "keygen"@
    ||| name == "link"@
    ||| name == "meta"@
    ||| name == "param"@
    ||| name == "source"@
    ||| name == "track"@
    ||| name == "wbr"@
}

/// Elements whose start tag implicitly closes an open element of the same
/// name, so sibling runs of sloppy markup do not count toward depth.
pub open spec fn closes_same_name(name: Seq<char>) -> bool {
    ||| name == "p"@
    ||| name == "li"@
    ||| name == "dt"@
    ||| name == "dd"@
    ||| name == "tr"@
    ||| name == "td"@
    ||| name == "th"@
    ||| name == "option"@
    ||| name == "optgroup"@
    ||| name == "caption"@
    ||| name == "colgroup"@
    ||| name == "thead"@
    ||| name == "tbody"@
    ||| name == "tfoot"@
    ||| name == "h1"@
    ||| name == "h2"@
    ||| name == "h3"@
    ||| name == "h4"@
    ||| name == "h5"@
    ||| name == "h6"@
}

/// Whether `name` is an HTML void element.
pub fn is_void(name: &str) -> (r: bool)
    ensures
        r == is_void_name(name@),
{
    str_eq(name, "area") || str_eq(name, "base") || str_eq(name, "basefont") || str_eq(
        name,
        "bgsound",
    ) || str_eq(name, "br") || str_eq(name, "col") || str_eq(name, "embed") || str_eq(
        name,
        "frame",
    ) || str_eq(name, "hr") || str_eq(name, "img") || str_eq(name, "input") || str_eq(
        name,
        "keygen",
    ) || str_eq(name, "link") || str_eq(name, "meta") || str_eq(name, "param") || str_eq(
        name,
        "source",
    ) || str_eq(name, "track") || str_eq(name, "wbr")
}

/// Whether a start tag `name` implicitly closes an open same-named element.
pub fn closes_same(name: &str) -> (r: bool)
    ensures
        r == closes_same_name(name@),
{
    str_eq(name, "p") || str_eq(name, "li") || str_eq(name, "dt") || str_eq(name, "dd")
        || str_eq(name, "tr") || str_eq(name, "td") || str_eq(name, "th") || str_eq(
        name,
        "option",
    ) || str_eq(name, "optgroup") || str_eq(name, "caption") || str_eq(name, "colgroup")
        || str_eq(name, "thead") || str_eq(name, "tbody") || str_eq(name, "tfoot") || str_eq(
        name,
        "h1",
    ) || str_eq(name, "h2") || str_eq(name, "h3") || str_eq(name, "h4") || str_eq(name, "h5")
        || str_eq(name, "h6")
}

/// The state of the nesting cap: the names of the start tags it counts as open,
/// and the names of the start tags it swallowed and whose end tags it still
/// has to swallow.
pub struct DepthCap<S> {
    pub inner: S,
    pub open: Vec<String>,
    pub swallowed: Vec<String>,
}

/// What the cap does with a start tag, given the open and swallowed stacks
/// before it: the stacks after it, and whether the tag goes on to the tree
/// builder.
pub open spec fn start_tag_step(
    open: Seq<Seq<char>>,
    swallowed: Seq<Seq<char>>,
    name: Seq<char>,
    foreign_self_closing: bool,
) -> (Seq<Seq<char>>, Seq<Seq<char>>, bool) {
    if is_void_name(name) || foreign_self_closing {
        (open, swallowed, true)
    } else if closes_same_name(name) && open.len() > 0 && open.last() == name {
        (open, swallowed, true)
    } else if open.len() >= MAX_DEPTH {
        (open, swallowed.push(name), false)
    } else {
        (open.push(name), swallowed, true)
    }
}

/// The last index at which `name` stands in `open`, if any.
pub open spec fn last_index_of(open: Seq<Seq<char>>, name: Seq<char>) -> Option<int> {
    if exists|i: int| 0 <= i < open.len() && open[i] == name {
        Some(
            choose|i: int|
                0 <= i < open.len() && open[i] == name && forall|j: int|
                    i < j < open.len() ==> open[j] != name,
        )
    } else {
        None
    }
}

/// Where `name` stands in `open`, a last position of it exists.
pub proof fn lemma_last_index_exists(open: Seq<Seq<char>>, name: Seq<char>, i: int)
    requires
        0 <= i < open.len(),
        open[i] == name,
    ensures
        last_index_of(open, name) is Some,
        0 <= last_index_of(open, name)->0 < open.len(),
    decreases open.len() - i,
{
    if exists|j: int| i < j < open.len() && open[j] == name {
        let j = choose|j: int| i < j < open.len() && open[j] == name;
        lemma_last_index_exists(open, name, j);
    } else {
        assert(0 <= i < open.len() && open[i] == name && forall|j: int| i < j < open.len() ==> open[j] != name);
    }
}

/// What the cap does with an end tag: the stacks after it, and whether the
/// tag goes on to the tree builder.
pub open spec fn end_tag_step(
    open: Seq<Seq<char>>,
    swallowed: Seq<Seq<char>>,
    name: Seq<char>,
) -> (Seq<Seq<char>>, Seq<Seq<char>>, bool) {
    if swallowed.len() > 0 && swallowed.last() == name {
        (open, swallowed.drop_last(), false)
    } else {
        match last_index_of(open, name) {
            Some(pos) => (open.subrange(0, pos), swallowed, true),
            None => (open, swallowed, true),
        }
    }
}

impl<S> DepthCap<S> {
    /// A cap in front of `inner`, with nothing open and nothing swallowed.
    pub fn new(inner: S) -> (r: DepthCap<S>)
        ensures
            r.inner == inner,
            r.open@.len() == 0,
            r.swallowed@.len() == 0,
    {
        DepthCap { inner, open: Vec::new(), swallowed: Vec::new() }
    }

    /// Gives back the sink behind the cap.
    pub fn into_inner(self) -> (r: S)
        ensures
            r == self.inner,
    {
        self.inner
    }

    /// Handles a start tag named `name`; `foreign_self_closing` tells whether it
    /// is self-closing in foreign (SVG/MathML) content. Returns whether the
    /// tag goes on to the tree builder. The open stack never grows beyond
    /// `MAX_DEPTH`.
    pub fn start_tag(&mut self, name: &str, foreign_self_closing: bool) -> (forward: bool)
        ensures
            (final(self).open.deep_view(), final(self).swallowed.deep_view(), forward)
                == start_tag_step(
                old(self).open.deep_view(),
                old(self).swallowed.deep_view(),
                name@,
                foreign_self_closing,
            ),
            final(self).inner == old(self).inner,
            old(self).open@.len() <= MAX_DEPTH ==> final(self).open@.len() <= MAX_DEPTH,
    {
        if !is_void(name) && !foreign_self_closing {
            let n = self.open.len();
            if closes_same(name) && n > 0 && str_eq(self.open[n - 1].as_str(), name) {
                // replaces its sibling: depth unchanged
            } else if n >= MAX_DEPTH {
                self.swallowed.push(name.to_owned());
                assert(self.swallowed.deep_view() =~= old(self).swallowed.deep_view().push(
                    name@,
                ));
                return false;
            } else {
                self.open.push(name.to_owned());
                assert(self.open.deep_view() =~= old(self).open.deep_view().push(name@));
            }
        }
        true
    }

    /// Handles an end tag named `name`. Returns whether the tag goes on to the
    /// tree builder: the end tag of a swallowed start tag is swallowed too.
    pub fn end_tag(&mut self, name: &str) -> (forward: bool)
        ensures
            (final(self).open.deep_view(), final(self).swallowed.deep_view(), forward)
                == end_tag_step(
                old(self).open.deep_view(),
                old(self).swallowed.deep_view(),
                name@,
            ),
            final(self).inner == old(self).inner,
            final(self).open@.len() <= old(self).open@.len(),
    {
        let ns = self.swallowed.len();
        if ns > 0 && str_eq(self.swallowed[ns - 1].as_str(), name) {
            self.swallowed.pop();
            assert(self.swallowed.deep_view() =~= old(self).swallowed.deep_view().drop_last());
            return false;
        }
        let ghost open0 = self.open.deep_view();
        let mut i = self.open.len();
        while i > 0
            invariant
                i <= self.open@.len(),
                self.open.deep_view() == open0,
                open0 == old(self).open.deep_view(),
                self.inner == old(self).inner,
                self.swallowed == old(self).swallowed,
                !(self.swallowed.deep_view().len() > 0 && self.swallowed.deep_view().last()
                    == name@),
                forall|j: int| i <= j < open0.len() ==> open0[j] != name@,
            decreases i,
        {
            if str_eq(self.open[i - 1].as_str(), name) {
                let pos = i - 1;
                assert(open0[pos as int] == name@);
                assert(last_index_of(open0, name@) == Some(pos as int)) by {
                    let k = choose|k: int|
                        0 <= k < open0.len() && open0[k] == name@ && forall|j: int|
                            k < j < open0.len() ==> open0[j] != name@;
                    assert(k == pos as int);
                }
                self.open.truncate(pos);
                assert(self.open.deep_view() =~= open0.subrange(0, pos as int));
                return true;
            }
            i = i - 1;
        }
        assert(last_index_of(open0, name@) is None);
        true
    }
}

} // verus!
