//! The set of plugin tags whose mappings are shown.

use crate::text::string_views;
use vstd::prelude::*;

verus! {

/// The plugin tags that are switched on, each held once.
#[derive(Debug)]
pub struct PluginFilter {
    pub shown: Vec<String>,
}

impl View for PluginFilter {
    type V = Set<Seq<char>>;

    open spec fn view(&self) -> Set<Seq<char>> {
        string_views(self.shown@).to_set()
    }
}

/// Where the tag stands in the list, if it does.
pub fn tag_position(tags: &Vec<String>, tag: &String) -> (r: Option<usize>)
    ensures
        match r {
            Some(i) => {
                &&& i < tags@.len()
                &&& tags@[i as int]@ == tag@
                &&& string_views(tags@).contains(tag@)
                &&& forall|j: int| 0 <= j < i ==> #[trigger] string_views(tags@)[j] != tag@
            },
            None => !string_views(tags@).contains(tag@),
        },
{
    let mut i: usize = 0;
    while i < tags.len()
        invariant
            i <= tags@.len(),
            forall|j: int| 0 <= j < i ==> #[trigger] string_views(tags@)[j] != tag@,
        decreases tags@.len() - i,
    {
        proof {
            assert(string_views(tags@)[i as int] == tags@[i as int]@);
        }
        if tags[i] == *tag {
            return Some(i);
        }
        i = i + 1;
    }
    None
}

impl PluginFilter {
    /// No tag is held twice.
    pub open spec fn wf(&self) -> bool {
        string_views(self.shown@).no_duplicates()
    }

    /// The filter that shows exactly the given tags.
    pub fn from_tags(tags: Vec<String>) -> (r: PluginFilter)
        ensures
            r.wf(),
            r@ == string_views(tags@).to_set(),
    {
        let ghost all = string_views(tags@);
        let mut r = PluginFilter { shown: Vec::new() };
        let ghost given = tags@;
        proof {
            assert(all.take(0).to_set() =~= r@);
        }
        for tag in it: tags.into_iter()
            invariant
                it.seq() == given,
                all == string_views(given),
                r.wf(),
                r@ == all.take(it.index() as int).to_set(),
        {
            let ghost before = r@;
            let ghost seen = all.take(it.index() as int);
            if tag_position(&r.shown, &tag).is_none() {
                let ghost held = string_views(r.shown@);
                r.shown.push(tag);
                proof {
                    assert(string_views(r.shown@) =~= held.push(tag@));
                    lemma_push_to_set(held, tag@);
                }
            } else {
                proof {
                    assert(before.contains(tag@));
                    assert(before.insert(tag@) =~= before);
                }
            }
            proof {
                assert(all.take(it.index() + 1) =~= seen.push(tag@));
                lemma_push_to_set(seen, tag@);
            }
        }
        proof {
            assert(all.take(all.len() as int) =~= all);
        }
        r
    }

    /// Whether mappings of that plugin are shown. Mappings that name no
    /// plugin always are.
    pub fn contains(&self, source_plugin: Option<&String>) -> (r: bool)
        ensures
            r == match source_plugin {
                Some(plugin) => self@.contains(plugin@),
                None => true,
            },
    {
        match source_plugin {
            Some(plugin) => tag_position(&self.shown, plugin).is_some(),
            None => true,
        }
    }

    /// Switches the plugin off where it is on, and on where it is off.
    pub fn toggle(&mut self, plugin: String)
        requires
            old(self).wf(),
        ensures
            final(self).wf(),
            final(self)@ == if old(self)@.contains(plugin@) {
                old(self)@.remove(plugin@)
            } else {
                old(self)@.insert(plugin@)
            },
    {
        let ghost held = string_views(self.shown@);
        match tag_position(&self.shown, &plugin) {
            Some(i) => {
                let _ = self.shown.remove(i);
                proof {
                    let left = string_views(self.shown@);
                    assert(left =~= held.remove(i as int));
                    assert(held[i as int] == plugin@);
                    assert forall|t: Seq<char>| left.contains(t) == (held.contains(t) && t
                        != plugin@) by {
                        if left.contains(t) {
                            let j = choose|j: int| 0 <= j < left.len() && left[j] == t;
                            if j < i {
                                assert(held[j] == t);
                            } else {
                                assert(held[j + 1] == t);
                            }
                        }
                        if held.contains(t) && t != plugin@ {
                            let j = choose|j: int| 0 <= j < held.len() && held[j] == t;
                            if j < i {
                                assert(left[j] == t);
                            } else {
                                assert(left[j - 1] == t);
                            }
                        }
                    }
                    assert(left.to_set() =~= held.to_set().remove(plugin@));
                    assert forall|a: int, b: int|
                        0 <= a < left.len() && 0 <= b < left.len() && a != b implies left[a]
                        != left[b] by {
                        let x = if a < i { a } else { a + 1 };
                        let y = if b < i { b } else { b + 1 };
                        assert(held[x] != held[y]);
                    }
                }
            },
            None => {
                self.shown.push(plugin);
                proof {
                    assert(string_views(self.shown@) =~= held.push(plugin@));
                    lemma_push_to_set(held, plugin@);
                }
            },
        }
    }
}

/// Pushing a string adds it to the set of strings held; pushing one that
/// was not held keeps a list free of repetition so.
pub proof fn lemma_push_to_set(held: Seq<Seq<char>>, tag: Seq<char>)
    ensures
        held.push(tag).to_set() == held.to_set().insert(tag),
        held.no_duplicates() && !held.contains(tag) ==> held.push(tag).no_duplicates(),
{
    let grown = held.push(tag);
    assert forall|t: Seq<char>| grown.contains(t) == (held.contains(t) || t == tag) by {
        if held.contains(t) {
            let j = choose|j: int| 0 <= j < held.len() && held[j] == t;
            assert(grown[j] == t);
        }
        if t == tag {
            assert(grown[grown.len() - 1] == t);
        }
    }
    assert(grown.to_set() =~= held.to_set().insert(tag));
}

} // verus!
