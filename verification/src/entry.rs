//! Directory entries and the rule that decides which of them are shown.

use vstd::prelude::*;
use vstd::string::*;

verus! {

/// One child of a listed directory.
pub struct Entry {
    /// The last component of the path, as it is printed.
    pub name: String,
    /// The full path, by which siblings are ordered and the entry is listed.
    pub path: String,
    /// Whether the entry is a directory, to be descended into.
    pub is_dir: bool,
}

/// What an [`Entry`] holds, as mathematical values.
pub struct EntryView {
    pub name: Seq<char>,
    pub path: Seq<char>,
    pub is_dir: bool,
}

impl View for Entry {
    type V = EntryView;

    open spec fn view(&self) -> EntryView {
        EntryView { name: self.name@, path: self.path@, is_dir: self.is_dir }
    }
}

/// The views of a sequence of entries, one for one.
pub open spec fn entry_views(entries: Seq<Entry>) -> Seq<EntryView> {
    entries.map_values(|e: Entry| e@)
}

/// A name is hidden when it begins with a dot.
pub open spec fn hidden(name: Seq<char>) -> bool {
    name.len() > 0 && name[0] == '.'
}

/// Whether an entry takes part in the rendering at all.
pub open spec fn shown(e: EntryView, show_hidden: bool) -> bool {
    show_hidden || !hidden(e.name)
}

/// The entries of a listing that are shown, in the order of the listing.
pub open spec fn visible(entries: Seq<EntryView>, show_hidden: bool) -> Seq<EntryView> {
    entries.filter(|e: EntryView| shown(e, show_hidden))
}

impl Clone for Entry {
    fn clone(&self) -> (r: Self)
        ensures
            r == *self,
    {
        Entry { name: self.name.clone(), path: self.path.clone(), is_dir: self.is_dir }
    }
}

impl Entry {
    /// An entry with the given name, full path and kind.
    pub fn new(name: String, path: String, is_dir: bool) -> (r: Self)
        ensures
            r.name == name,
            r.path == path,
            r.is_dir == is_dir,
    {
        Entry { name, path, is_dir }
    }

    /// Whether the entry's name begins with a dot.
    pub fn is_hidden(&self) -> (r: bool)
        ensures
            r == hidden(self@.name),
    {
        let name = self.name.as_str();
        !name.is_empty() && name.get_char(0) == '.'
    }
}

/// Every shown entry of a listing with hidden entries left out has a name that
/// does not begin with a dot, and all of a listing is shown when hidden
/// entries are asked for.
pub proof fn lemma_visible_is_shown(entries: Seq<EntryView>, show_hidden: bool)
    ensures
        forall|i: int|
            0 <= i < visible(entries, show_hidden).len() ==> shown(
                #[trigger] visible(entries, show_hidden)[i],
                show_hidden,
            ),
        forall|i: int|
            0 <= i < visible(entries, false).len() ==> !hidden(
                (#[trigger] visible(entries, false)[i]).name,
            ),
        visible(entries, true) == entries,
    decreases entries.len(),
{
    reveal(Seq::filter);
    if entries.len() > 0 {
        lemma_visible_is_shown(entries.drop_last(), show_hidden);
        lemma_visible_is_shown(entries.drop_last(), false);
        lemma_visible_is_shown(entries.drop_last(), true);
        assert(entries.drop_last().push(entries.last()) =~= entries);
    }
}

/// Extending a listing by one entry extends what is shown of it by that
/// entry, or by nothing when the entry is hidden.
pub proof fn lemma_visible_push(entries: Seq<EntryView>, e: EntryView, show_hidden: bool)
    ensures
        visible(entries.push(e), show_hidden) == if shown(e, show_hidden) {
            visible(entries, show_hidden).push(e)
        } else {
            visible(entries, show_hidden)
        },
{
    reveal(Seq::filter);
    assert(entries.push(e).drop_last() =~= entries);
}

/// The entries that are shown, in the order in which they were listed: all
/// of them when `show_hidden` is set, else those whose name does not begin
/// with a dot.
pub fn visible_entries(entries: &[Entry], show_hidden: bool) -> (kept: Vec<Entry>)
    ensures
        entry_views(kept@) == visible(entry_views(entries@), show_hidden),
{
    let mut kept: Vec<Entry> = Vec::new();
    let mut i: usize = 0;
    proof {
        reveal(Seq::filter);
        assert(entry_views(entries@.subrange(0, 0)) =~= Seq::<EntryView>::empty());
        assert(entry_views(kept@) =~= Seq::<EntryView>::empty());
    }
    while i < entries.len()
        invariant
            i <= entries.len(),
            entry_views(kept@) == visible(
                entry_views(entries@.subrange(0, i as int)),
                show_hidden,
            ),
        decreases entries.len() - i,
    {
        let e = &entries[i];
        proof {
            let before = entry_views(entries@.subrange(0, i as int));
            assert(entry_views(entries@.subrange(0, i + 1)) =~= before.push(e@));
            lemma_visible_push(before, e@, show_hidden);
        }
        if show_hidden || !e.is_hidden() {
            let ghost old_kept = kept@;
            kept.push(e.clone());
            assert(entry_views(kept@) =~= entry_views(old_kept).push(e@));
        }
        i += 1;
    }
    assert(entries@.subrange(0, entries.len() as int) =~= entries@);
    kept
}

} // verus!
