//! What holds of every assembly: the shape of the event sequence.
//!
//! The contract of `assemble_manual` pins the whole event sequence down to
//! `spec_assemble`; the proofs here state the consequences a formatter
//! relies on: the event counts, the one flagged start event, and the
//! independence of the result from the order a directory walk happened to
//! return the entries in.

use vstd::prelude::*;
use crate::assembly::{spec_assemble, spec_item_event, spec_section_events, ManualEventView};
use crate::entries::SectionEntry;
use crate::order::{
    distinct_keys, insert_sorted, lemma_sort_idempotent, lemma_sort_len, lemma_sort_permutation,
    lemma_sort_sorted, sort_by_key, sorted_by_key, PathKeyed,
};
use crate::text::lex_leq;

verus! {

/// Whether an event opens a section.
pub open spec fn is_start_event(e: ManualEventView) -> bool {
    match e {
        ManualEventView::SectionStart { .. } => true,
        _ => false,
    }
}

/// Whether an event names a section.
pub open spec fn is_name_event(e: ManualEventView) -> bool {
    match e {
        ManualEventView::SectionName { .. } => true,
        _ => false,
    }
}

/// Whether an event processes one item.
pub open spec fn is_item_event(e: ManualEventView) -> bool {
    match e {
        ManualEventView::Item { .. } => true,
        _ => false,
    }
}

/// Whether an event closes a section.
pub open spec fn is_end_event(e: ManualEventView) -> bool {
    match e {
        ManualEventView::SectionEnd => true,
        _ => false,
    }
}

/// `is_start_event`, as a value to count with.
pub open spec fn start_pred() -> spec_fn(ManualEventView) -> bool {
    |e: ManualEventView| is_start_event(e)
}

/// `is_name_event`, as a value to count with.
pub open spec fn name_pred() -> spec_fn(ManualEventView) -> bool {
    |e: ManualEventView| is_name_event(e)
}

/// `is_item_event`, as a value to count with.
pub open spec fn item_pred() -> spec_fn(ManualEventView) -> bool {
    |e: ManualEventView| is_item_event(e)
}

/// `is_end_event`, as a value to count with.
pub open spec fn end_pred() -> spec_fn(ManualEventView) -> bool {
    |e: ManualEventView| is_end_event(e)
}

/// How many events of a sequence satisfy `p`.
pub open spec fn count_events(es: Seq<ManualEventView>, p: spec_fn(ManualEventView) -> bool) -> int
    decreases es.len(),
{
    if es.len() == 0 {
        0
    } else {
        (if p(es[0]) {
            1int
        } else {
            0int
        }) + count_events(es.drop_first(), p)
    }
}

/// How many item files a listing of sections holds in all.
pub open spec fn total_items(sections: Seq<SectionEntry>) -> int
    decreases sections.len(),
{
    if sections.len() == 0 {
        0
    } else {
        sections[0].items@.len() + total_items(sections.drop_first())
    }
}

proof fn lemma_count_add(a: Seq<ManualEventView>, b: Seq<ManualEventView>, p: spec_fn(ManualEventView) -> bool)
    ensures
        count_events(a + b, p) == count_events(a, p) + count_events(b, p),
    decreases a.len(),
{
    if a.len() == 0 {
        assert(a + b =~= b);
    } else {
        lemma_count_add(a.drop_first(), b, p);
        assert((a + b).drop_first() =~= a.drop_first() + b);
    }
}

proof fn lemma_count_uniform(es: Seq<ManualEventView>, p: spec_fn(ManualEventView) -> bool, v: bool)
    requires
        forall|i: int| 0 <= i < es.len() ==> p(#[trigger] es[i]) == v,
    ensures
        count_events(es, p) == if v {
            es.len() as int
        } else {
            0int
        },
    decreases es.len(),
{
    if es.len() > 0 {
        lemma_count_uniform(es.drop_first(), p, v);
    }
}

proof fn lemma_count_section(s: SectionEntry, is_last: bool, p: spec_fn(ManualEventView) -> bool)
    ensures
        count_events(spec_section_events(s, is_last), p) == (if p(
            ManualEventView::SectionStart { is_last },
        ) {
            1int
        } else {
            0int
        }) + (if p(
            ManualEventView::SectionName {
                name: crate::text::spec_section_name(s.stem@),
                kind: crate::text::spec_kind(s.stem@),
            },
        ) {
            1int
        } else {
            0int
        }) + count_events(
            sort_by_key(s.items@).map_values(|it: crate::entries::ItemEntry| spec_item_event(it)),
            p,
        ) + (if p(ManualEventView::SectionEnd) {
            1int
        } else {
            0int
        }),
{
    let start = ManualEventView::SectionStart { is_last };
    let name = ManualEventView::SectionName {
        name: crate::text::spec_section_name(s.stem@),
        kind: crate::text::spec_kind(s.stem@),
    };
    let mid = sort_by_key(s.items@).map_values(
        |it: crate::entries::ItemEntry| spec_item_event(it),
    );
    let head = seq![start, name];
    let tail = seq![ManualEventView::SectionEnd];
    lemma_count_add(head + mid, tail, p);
    lemma_count_add(head, mid, p);
    assert(count_events(tail, p) == if p(ManualEventView::SectionEnd) {
        1int
    } else {
        0int
    }) by {
        assert(tail[0] == ManualEventView::SectionEnd);
        assert(tail.drop_first() =~= Seq::<ManualEventView>::empty());
        assert(count_events(Seq::<ManualEventView>::empty(), p) == 0);
    }
    assert(count_events(head, p) == (if p(start) {
        1int
    } else {
        0int
    }) + (if p(name) {
        1int
    } else {
        0int
    })) by {
        assert(head[0] == start);
        assert(head.drop_first() =~= seq![name]);
        assert(seq![name][0] == name);
        assert(seq![name].drop_first() =~= Seq::<ManualEventView>::empty());
        assert(count_events(Seq::<ManualEventView>::empty(), p) == 0);
        assert(count_events(seq![name], p) == if p(name) {
            1int
        } else {
            0int
        });
    }
    assert(spec_section_events(s, is_last) == head + mid + tail);
}

/// The per-kind event counts of a run of sections in processing order.
proof fn lemma_counts_of_run(sections: Seq<SectionEntry>)
    ensures
        count_events(crate::assembly::spec_events_of(sections), start_pred()) == sections.len(),
        count_events(crate::assembly::spec_events_of(sections), name_pred()) == sections.len(),
        count_events(crate::assembly::spec_events_of(sections), end_pred()) == sections.len(),
        count_events(crate::assembly::spec_events_of(sections), item_pred()) == total_items(
            sections,
        ),
    decreases sections.len(),
{
    if sections.len() > 0 {
        let s = sections[0];
        let is_last = sections.len() == 1;
        let block = spec_section_events(s, is_last);
        let rest = crate::assembly::spec_events_of(sections.drop_first());
        lemma_counts_of_run(sections.drop_first());
        let mid = sort_by_key(s.items@).map_values(
            |it: crate::entries::ItemEntry| spec_item_event(it),
        );
        lemma_sort_len(s.items@);
        lemma_count_add(block, rest, start_pred());
        lemma_count_add(block, rest, name_pred());
        lemma_count_add(block, rest, end_pred());
        lemma_count_add(block, rest, item_pred());
        lemma_count_section(s, is_last, start_pred());
        lemma_count_section(s, is_last, name_pred());
        lemma_count_section(s, is_last, end_pred());
        lemma_count_section(s, is_last, item_pred());
        lemma_count_uniform(mid, start_pred(), false);
        lemma_count_uniform(mid, name_pred(), false);
        lemma_count_uniform(mid, end_pred(), false);
        lemma_count_uniform(mid, item_pred(), true);
    }
}

proof fn lemma_total_items_push(sections: Seq<SectionEntry>, x: SectionEntry)
    ensures
        total_items(sections.push(x)) == total_items(sections) + x.items@.len(),
    decreases sections.len(),
{
    if sections.len() == 0 {
        assert(sections.push(x)[0] == x);
        assert(sections.push(x).drop_first() =~= Seq::<SectionEntry>::empty());
        assert(total_items(Seq::<SectionEntry>::empty()) == 0);
        assert(total_items(sections) == 0);
    } else {
        lemma_total_items_push(sections.drop_first(), x);
        assert(sections.push(x)[0] == sections[0]);
        assert(sections.push(x).drop_first() =~= sections.drop_first().push(x));
        assert(total_items(sections.push(x)) == sections[0].items@.len() + total_items(
            sections.drop_first().push(x),
        ));
        assert(total_items(sections) == sections[0].items@.len() + total_items(
            sections.drop_first(),
        ));
    }
}

proof fn lemma_total_items_insert_sorted(sections: Seq<SectionEntry>, x: SectionEntry)
    ensures
        total_items(insert_sorted(sections, x)) == total_items(sections) + x.items@.len(),
    decreases sections.len(),
{
    if sections.len() == 0 {
        assert(seq![x] =~= Seq::<SectionEntry>::empty().push(x));
        lemma_total_items_push(Seq::<SectionEntry>::empty(), x);
    } else if crate::text::lex_lt(x.key(), sections.last().key()) {
        lemma_total_items_insert_sorted(sections.drop_last(), x);
        lemma_total_items_push(insert_sorted(sections.drop_last(), x), sections.last());
        lemma_total_items_push(sections.drop_last(), sections.last());
        assert(sections.drop_last().push(sections.last()) =~= sections);
    } else {
        lemma_total_items_push(sections, x);
    }
}

proof fn lemma_total_items_sort(sections: Seq<SectionEntry>)
    ensures
        total_items(sort_by_key(sections)) == total_items(sections),
    decreases sections.len(),
{
    if sections.len() > 0 {
        lemma_total_items_sort(sections.drop_last());
        lemma_total_items_insert_sorted(sort_by_key(sections.drop_last()), sections.last());
        lemma_total_items_push(sections.drop_last(), sections.last());
        assert(sections.drop_last().push(sections.last()) =~= sections);
    }
}

/// With N sections in the tree, assembly emits exactly N start events, N
/// name events and N end events, and exactly one item event per item file,
/// whatever the items are distributed over the sections.
pub proof fn lemma_event_counts(sections: Seq<SectionEntry>)
    ensures
        count_events(spec_assemble(sections), start_pred()) == sections.len(),
        count_events(spec_assemble(sections), name_pred()) == sections.len(),
        count_events(spec_assemble(sections), end_pred()) == sections.len(),
        count_events(spec_assemble(sections), item_pred()) == total_items(sections),
{
    lemma_counts_of_run(sort_by_key(sections));
    lemma_sort_len(sections);
    lemma_total_items_sort(sections);
}

/// The flags carried by the start events, in emission order.
pub open spec fn start_flags(es: Seq<ManualEventView>) -> Seq<bool>
    decreases es.len(),
{
    if es.len() == 0 {
        Seq::empty()
    } else {
        match es[0] {
            ManualEventView::SectionStart { is_last } => seq![is_last] + start_flags(
                es.drop_first(),
            ),
            _ => start_flags(es.drop_first()),
        }
    }
}

proof fn lemma_flags_add(a: Seq<ManualEventView>, b: Seq<ManualEventView>)
    ensures
        start_flags(a + b) == start_flags(a) + start_flags(b),
    decreases a.len(),
{
    if a.len() == 0 {
        assert(a + b =~= b);
        assert(start_flags(a) + start_flags(b) =~= start_flags(b));
    } else {
        lemma_flags_add(a.drop_first(), b);
        assert((a + b).drop_first() =~= a.drop_first() + b);
        if is_start_event(a[0]) {
            assert((a + b)[0] == a[0]);
            assert(start_flags(a) + start_flags(b) =~= seq![a[0]->SectionStart_is_last]
                + start_flags(a.drop_first()) + start_flags(b));
            assert(seq![a[0]->SectionStart_is_last] + (start_flags(a.drop_first()) + start_flags(
                b,
            )) =~= seq![a[0]->SectionStart_is_last] + start_flags(a.drop_first()) + start_flags(
                b,
            ));
        }
    }
}

proof fn lemma_flags_none(es: Seq<ManualEventView>)
    requires
        forall|i: int| 0 <= i < es.len() ==> !is_start_event(#[trigger] es[i]),
    ensures
        start_flags(es) == Seq::<bool>::empty(),
    decreases es.len(),
{
    if es.len() > 0 {
        lemma_flags_none(es.drop_first());
    }
}

proof fn lemma_flags_of_run(sections: Seq<SectionEntry>)
    ensures
        start_flags(crate::assembly::spec_events_of(sections)) == Seq::new(
            sections.len(),
            |i: int| i == sections.len() - 1,
        ),
    decreases sections.len(),
{
    if sections.len() == 0 {
        assert(start_flags(crate::assembly::spec_events_of(sections)) =~= Seq::new(
            sections.len(),
            |i: int| i == sections.len() - 1,
        ));
    } else {
        let s = sections[0];
        let is_last = sections.len() == 1;
        let block = spec_section_events(s, is_last);
        let rest = crate::assembly::spec_events_of(sections.drop_first());
        lemma_flags_of_run(sections.drop_first());
        lemma_flags_add(block, rest);
        let start = ManualEventView::SectionStart { is_last };
        let name = ManualEventView::SectionName {
            name: crate::text::spec_section_name(s.stem@),
            kind: crate::text::spec_kind(s.stem@),
        };
        let mid = sort_by_key(s.items@).map_values(
            |it: crate::entries::ItemEntry| spec_item_event(it),
        );
        let tail = seq![name] + mid + seq![ManualEventView::SectionEnd];
        assert(block =~= seq![start] + tail);
        lemma_flags_add(seq![start], tail);
        lemma_flags_add(seq![name] + mid, seq![ManualEventView::SectionEnd]);
        lemma_flags_add(seq![name], mid);
        lemma_flags_none(seq![name]);
        lemma_flags_none(mid);
        lemma_flags_none(seq![ManualEventView::SectionEnd]);
        assert(seq![start].drop_first() =~= Seq::<ManualEventView>::empty());
        assert(seq![start][0] == start);
        assert(start_flags(Seq::<ManualEventView>::empty()) =~= Seq::<bool>::empty());
        assert(start_flags(seq![start]) =~= seq![is_last] + Seq::<bool>::empty());
        assert(start_flags(seq![start]) =~= seq![is_last]);
        assert(start_flags(block) =~= seq![is_last]);
        assert(start_flags(crate::assembly::spec_events_of(sections)) =~= Seq::new(
            sections.len(),
            |i: int| i == sections.len() - 1,
        ));
    }
}

/// The start event's flag is true exactly once: on the last section in
/// sorted order, the one whose path is lexicographically greatest.
pub proof fn lemma_last_section_flag(sections: Seq<SectionEntry>)
    requires
        sections.len() > 0,
    ensures
        start_flags(spec_assemble(sections)) == Seq::new(
            sections.len(),
            |i: int| i == sections.len() - 1,
        ),
        forall|i: int|
            0 <= i < sections.len() ==> lex_leq(
                (#[trigger] sort_by_key(sections)[i]).key(),
                sort_by_key(sections)[sections.len() - 1].key(),
            ),
{
    lemma_flags_of_run(sort_by_key(sections));
    lemma_sort_len(sections);
    lemma_sort_sorted(sections);
    assert forall|i: int| 0 <= i < sections.len() implies lex_leq(
        (#[trigger] sort_by_key(sections)[i]).key(),
        sort_by_key(sections)[sections.len() - 1].key(),
    ) by {
        if i < sections.len() - 1 {
            assert(sorted_by_key(sort_by_key(sections)));
        }
    }
}

/// Assembly does not depend on the order a directory walk returned the
/// sections in: two listings of the same section entries give the same
/// events.  Together with the item-level counterpart below, running
/// assembly twice against an unchanged tree gives identical event
/// sequences.
pub proof fn lemma_assembly_listing_order_irrelevant(a: Seq<SectionEntry>, b: Seq<SectionEntry>)
    requires
        a.to_multiset() == b.to_multiset(),
        distinct_keys(a),
    ensures
        spec_assemble(a) == spec_assemble(b),
{
    lemma_sort_permutation(a, b);
}

/// Sorting is idempotent at the assembly level: assembling a listing and
/// assembling its sorted form give the same events, so a second pass over
/// an unchanged tree repeats the first.
pub proof fn lemma_assembly_of_sorted_listing(sections: Seq<SectionEntry>)
    ensures
        spec_assemble(sort_by_key(sections)) == spec_assemble(sections),
{
    lemma_sort_sorted(sections);
    lemma_sort_idempotent(sort_by_key(sections));
}

/// A section's events do not depend on the order its items were listed in.
pub proof fn lemma_section_item_order_irrelevant(a: SectionEntry, b: SectionEntry, is_last: bool)
    requires
        a.path == b.path,
        a.stem == b.stem,
        a.items@.to_multiset() == b.items@.to_multiset(),
        distinct_keys(a.items@),
    ensures
        spec_section_events(a, is_last) == spec_section_events(b, is_last),
{
    lemma_sort_permutation(a.items@, b.items@);
}

} // verus!
