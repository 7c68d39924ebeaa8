//! The assembler itself: from a tree snapshot to the event sequence.
//!
//! Assembly turns a listing of sections into the exact sequence of
//! formatting events a formatter must perform: for each section, in
//! lexicographic path order, a start event (flagged on the last section), a
//! name event with the decoded title and classification, one event per item
//! in lexicographic path order, and an end event.

use vstd::prelude::*;
use crate::entries::{wf_section, wf_sections, ItemEntry, SectionEntry};
use crate::kind::ManualItem;
use crate::order::{lemma_sort_preserves_all, sort_by_key, sort_entries};
use crate::text::{
    decode_item_name, decode_kind, decode_section_name, has_decodable_name, spec_item_name,
    spec_kind, spec_section_name,
};

verus! {

/// One formatting step of the manual, in the order the assembler emits
/// them.  A formatter performs each step in turn against its output.
#[derive(Debug, PartialEq, Eq)]
pub enum ManualEvent {
    /// A section begins; `is_last` is true only on the final section.
    SectionStart { is_last: bool },
    /// The section's decoded title and classification.
    SectionName { name: String, kind: ManualItem },
    /// One item of the section: its decoded display name, its file path
    /// (for embedding the file's content), and its classification.
    Item { name: String, path: String, kind: ManualItem },
    /// The section is complete.
    SectionEnd,
}

/// The mathematical shape of one formatting step, with names and paths as
/// character sequences.
pub enum ManualEventView {
    SectionStart { is_last: bool },
    SectionName { name: Seq<char>, kind: ManualItem },
    Item { name: Seq<char>, path: Seq<char>, kind: ManualItem },
    SectionEnd,
}

impl View for ManualEvent {
    type V = ManualEventView;

    open spec fn view(&self) -> ManualEventView {
        match self {
            ManualEvent::SectionStart { is_last } => ManualEventView::SectionStart {
                is_last: *is_last,
            },
            ManualEvent::SectionName { name, kind } => ManualEventView::SectionName {
                name: name@,
                kind: *kind,
            },
            ManualEvent::Item { name, path, kind } => ManualEventView::Item {
                name: name@,
                path: path@,
                kind: *kind,
            },
            ManualEvent::SectionEnd => ManualEventView::SectionEnd,
        }
    }
}

/// The views of a sequence of events.
pub open spec fn views_of(events: Seq<ManualEvent>) -> Seq<ManualEventView> {
    events.map_values(|e: ManualEvent| e@)
}

/// The event one item file gives rise to.
pub open spec fn spec_item_event(it: ItemEntry) -> ManualEventView {
    ManualEventView::Item {
        name: spec_item_name(it.stem@),
        path: it.path@,
        kind: spec_kind(it.stem@),
    }
}

/// The events of one section: start, name, its items in lexicographic path
/// order, end.
pub open spec fn spec_section_events(s: SectionEntry, is_last: bool) -> Seq<ManualEventView> {
    seq![
        ManualEventView::SectionStart { is_last },
        ManualEventView::SectionName { name: spec_section_name(s.stem@), kind: spec_kind(s.stem@) },
    ] + sort_by_key(s.items@).map_values(|it: ItemEntry| spec_item_event(it))
        + seq![ManualEventView::SectionEnd]
}

/// The events of a run of sections already in processing order; the start
/// event of the last one carries the flag.
pub open spec fn spec_events_of(sections: Seq<SectionEntry>) -> Seq<ManualEventView>
    decreases sections.len(),
{
    if sections.len() == 0 {
        Seq::empty()
    } else {
        spec_section_events(sections[0], sections.len() == 1) + spec_events_of(
            sections.drop_first(),
        )
    }
}

/// The full event sequence of a tree snapshot: its sections sorted by path,
/// then the events of each in turn.
pub open spec fn spec_assemble(sections: Seq<SectionEntry>) -> Seq<ManualEventView> {
    spec_events_of(sort_by_key(sections))
}

proof fn lemma_views_push(events: Seq<ManualEvent>, e: ManualEvent)
    ensures
        views_of(events.push(e)) == views_of(events).push(e@),
{
    assert(views_of(events.push(e)) =~= views_of(events).push(e@));
}

/// Emits the events of one section.
fn section_events(s: SectionEntry, is_last: bool, events: &mut Vec<ManualEvent>)
    requires
        wf_section(s),
    ensures
        views_of(final(events)@) == views_of(old(events)@) + spec_section_events(s, is_last),
{
    let ghost base = views_of(old(events)@);
    let SectionEntry { path: _, stem, items } = s;
    proof {
        lemma_views_push(events@, ManualEvent::SectionStart { is_last });
    }
    events.push(ManualEvent::SectionStart { is_last });
    let name = decode_section_name(stem.as_str());
    let kind = decode_kind(stem.as_str());
    proof {
        lemma_views_push(events@, ManualEvent::SectionName { name, kind });
    }
    events.push(ManualEvent::SectionName { name, kind });
    let ghost head = seq![
        ManualEventView::SectionStart { is_last },
        ManualEventView::SectionName { name: spec_section_name(s.stem@), kind: spec_kind(s.stem@) },
    ];
    proof {
        lemma_sort_preserves_all::<ItemEntry>(s.items@, |it: ItemEntry| it.stem@.len() > 0);
        assert(views_of(events@) =~= base + head);
    }
    let mut rest = sort_entries(items);
    let ghost sorted_items = sort_by_key(s.items@);
    let ghost idx: int = 0;
    proof {
        assert(sorted_items.skip(0) =~= sorted_items);
        assert(sorted_items.take(0).map_values(|it: ItemEntry| spec_item_event(it)) =~= Seq::<
            ManualEventView,
        >::empty());
        assert(base + head + Seq::<ManualEventView>::empty() =~= base + head);
    }
    while rest.len() > 0
        invariant
            0 <= idx <= sorted_items.len(),
            rest@ == sorted_items.skip(idx),
            forall|k: int| 0 <= k < sorted_items.len() ==> (#[trigger] sorted_items[k].stem)@.len()
                > 0,
            views_of(events@) == base + head + sorted_items.take(idx).map_values(
                |it: ItemEntry| spec_item_event(it),
            ),
        decreases rest@.len(),
    {
        let it = rest.remove(0);
        proof {
            assert(sorted_items.skip(idx)[0] == sorted_items[idx]);
            assert(sorted_items.skip(idx).remove(0) =~= sorted_items.skip(idx + 1));
        }
        let iname = decode_item_name(it.stem.as_str());
        let ikind = decode_kind(it.stem.as_str());
        let ev = ManualEvent::Item { name: iname, path: it.path, kind: ikind };
        proof {
            lemma_views_push(events@, ev);
            assert(ev@ == spec_item_event(sorted_items[idx]));
            assert(sorted_items.take(idx + 1).map_values(|it: ItemEntry| spec_item_event(it)) =~=
                sorted_items.take(idx).map_values(|it: ItemEntry| spec_item_event(it)).push(
                spec_item_event(sorted_items[idx]),
            ));
            assert(base + head + sorted_items.take(idx).map_values(
                |it: ItemEntry| spec_item_event(it),
            ).push(spec_item_event(sorted_items[idx])) =~= (base + head + sorted_items.take(
                idx,
            ).map_values(|it: ItemEntry| spec_item_event(it))).push(
                spec_item_event(sorted_items[idx]),
            ));
        }
        events.push(ev);
        proof {
            idx = idx + 1;
        }
    }
    proof {
        assert(sorted_items.take(idx) =~= sorted_items);
        lemma_views_push(events@, ManualEvent::SectionEnd);
    }
    events.push(ManualEvent::SectionEnd);
    proof {
        assert(views_of(events@) =~= base + spec_section_events(s, is_last));
    }
}

/// Whether every section of the listing is well formed; the check the
/// assembler makes before any event is produced.
fn check_sections(sections: &Vec<SectionEntry>) -> (b: bool)
    ensures
        b == wf_sections(sections@),
{
    let mut i: usize = 0;
    while i < sections.len()
        invariant
            0 <= i <= sections@.len(),
            forall|k: int| 0 <= k < i ==> wf_section(#[trigger] sections@[k]),
        decreases sections@.len() - i,
    {
        let s = &sections[i];
        if s.stem.as_str().is_empty() {
            return false;
        }
        if !has_decodable_name(s.stem.as_str()) {
            return false;
        }
        let mut j: usize = 0;
        while j < s.items.len()
            invariant
                0 <= i < sections@.len(),
                s == &sections@[i as int],
                0 <= j <= s.items@.len(),
                forall|k: int| 0 <= k < j ==> (#[trigger] s.items@[k].stem)@.len() > 0,
            decreases s.items@.len() - j,
        {
            if s.items[j].stem.as_str().is_empty() {
                proof {
                    assert(!wf_section(sections@[i as int]));
                }
                return false;
            }
            j = j + 1;
        }
        i = i + 1;
    }
    true
}

/// Assembles the manual from a snapshot of its source tree.
///
/// Returns the exact sequence of formatting events for the tree: sections in
/// lexicographic path order, each as a start event (flagged on the last
/// section), a name event with the decoded title, one event per item in
/// lexicographic path order, and an end event.  Returns `None`, before any
/// event is produced, where some name stem cannot be decoded: a defect of
/// the source tree, not a condition the assembler papers over.
pub fn assemble_manual(sections: Vec<SectionEntry>) -> (r: Option<Vec<ManualEvent>>)
    ensures
        r is Some <==> wf_sections(sections@),
        match r {
            Some(events) => views_of(events@) == spec_assemble(sections@),
            None => !wf_sections(sections@),
        },
{
    if !check_sections(&sections) {
        return None;
    }
    proof {
        lemma_sort_preserves_all::<SectionEntry>(sections@, |s: SectionEntry| wf_section(s));
    }
    let mut rest = sort_entries(sections);
    let ghost sorted = sort_by_key(sections@);
    let mut events: Vec<ManualEvent> = Vec::new();
    proof {
        assert(views_of(events@) =~= Seq::<ManualEventView>::empty());
        assert(Seq::<ManualEventView>::empty() + spec_events_of(sorted) =~= spec_events_of(
            sorted,
        ));
    }
    while rest.len() > 0
        invariant
            forall|k: int| 0 <= k < rest@.len() ==> wf_section(#[trigger] rest@[k]),
            views_of(events@) + spec_events_of(rest@) == spec_events_of(sorted),
        decreases rest@.len(),
    {
        let is_last = rest.len() == 1;
        let ghost rest_before = rest@;
        let s = rest.remove(0);
        proof {
            assert(rest_before.remove(0) =~= rest_before.drop_first());
            assert(rest_before[0] == s);
        }
        section_events(s, is_last, &mut events);
        proof {
            assert(spec_events_of(rest_before) == spec_section_events(s, rest_before.len() == 1)
                + spec_events_of(rest_before.drop_first()));
            assert(views_of(events@) + spec_events_of(rest@) =~= spec_events_of(sorted));
        }
    }
    proof {
        assert(views_of(events@) + spec_events_of(rest@) =~= views_of(events@));
    }
    Some(events)
}

} // verus!
