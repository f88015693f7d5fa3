//! The validated overlay-pack aggregate and the rules it is built under.

use crate::collections::{keys_of, lookup, strictly_sorted, IdentifierSet, SelectionMap};
use crate::text::{lemma_seq_lt_asymmetric, lemma_seq_lt_irreflexive, lemma_seq_lt_total, lemma_seq_lt_transitive, seq_lt, str_lt};
use crate::model::{
    ids_view, within, DomainError, DomainFault, Identifier, Overlay, OverlayClass, Profile, Variable,
};
use vstd::prelude::*;

verus! {

/// The identifier texts of classes.
pub open spec fn class_ids(cs: Seq<OverlayClass>) -> Seq<Seq<char>> {
    cs.map_values(|c: OverlayClass| c.id@)
}

/// The identifier texts of overlays.
pub open spec fn overlay_ids(os: Seq<Overlay>) -> Seq<Seq<char>> {
    os.map_values(|o: Overlay| o.id@)
}

/// The identifier texts of profiles.
pub open spec fn profile_ids(ps: Seq<Profile>) -> Seq<Seq<char>> {
    ps.map_values(|p: Profile| p.id@)
}

/// The names of variables.
pub open spec fn variable_names(vs: Seq<Variable>) -> Seq<Seq<char>> {
    vs.map_values(|v: Variable| v.name@)
}

/// The position of the first element that repeats an earlier one.
pub open spec fn first_repeat(s: Seq<Seq<char>>) -> Option<int>
    decreases s.len(),
{
    if s.len() == 0 {
        None
    } else {
        match first_repeat(s.drop_last()) {
            Some(j) => Some(j),
            None => if s.drop_last().contains(s.last()) {
                Some(s.len() - 1)
            } else {
                None
            },
        }
    }
}

/// The position of the first occurrence of `x`.
pub open spec fn position(s: Seq<Seq<char>>, x: Seq<char>) -> Option<int>
    decreases s.len(),
{
    if s.len() == 0 {
        None
    } else {
        match position(s.drop_last(), x) {
            Some(i) => Some(i),
            None => if s.last() == x {
                Some(s.len() - 1)
            } else {
                None
            },
        }
    }
}

/// The position of the first element of `s` that `pool` lacks.
pub open spec fn first_absent(s: Seq<Seq<char>>, pool: Seq<Seq<char>>) -> Option<int>
    decreases s.len(),
{
    if s.len() == 0 {
        None
    } else {
        match first_absent(s.drop_last(), pool) {
            Some(i) => Some(i),
            None => if !pool.contains(s.last()) {
                Some(s.len() - 1)
            } else {
                None
            },
        }
    }
}

/// Two distinct classes share the order `o`.
pub open spec fn duplicated_order(cs: Seq<OverlayClass>, o: u32) -> bool {
    exists|i: int, j: int| 0 <= i < j < cs.len() && cs[i].order == o && cs[j].order == o
}

/// The least order that two classes share, if any.
pub open spec fn least_duplicated_order(cs: Seq<OverlayClass>) -> Option<u32> {
    if exists|o: u32| duplicated_order(cs, o) {
        Some(choose|o: u32| duplicated_order(cs, o) && forall|p: u32| #![trigger duplicated_order(cs, p)] duplicated_order(cs, p) ==> o <= p)
    } else {
        None
    }
}

/// The first problem with one overlay declaration.
pub open spec fn overlay_fault(o: Overlay, classes: Seq<Seq<char>>, overlays: Seq<Seq<char>>) -> Option<DomainFault> {
    if !classes.contains(o.class@) {
        Some(DomainFault::UnknownClass { overlay: o.id@, class: o.class@ })
    } else {
        match first_absent(o.incompatible_with@, overlays) {
            Some(k) => Some(DomainFault::UnknownOverlayReference(o.incompatible_with@[k])),
            None => None,
        }
    }
}

/// The first problem among overlay declarations, in the given order.
pub open spec fn overlays_fault(os: Seq<Overlay>, classes: Seq<Seq<char>>, overlays: Seq<Seq<char>>) -> Option<DomainFault>
    decreases os.len(),
{
    if os.len() == 0 {
        None
    } else {
        match overlays_fault(os.drop_last(), classes, overlays) {
            Some(e) => Some(e),
            None => overlay_fault(os.last(), classes, overlays),
        }
    }
}

/// The first problem with one selected overlay, given those selected before it.
pub open spec fn member_fault(os: Seq<Overlay>, class: Seq<char>, prior: Seq<Seq<char>>, x: Seq<char>) -> Option<DomainFault> {
    if prior.contains(x) {
        Some(DomainFault::DuplicateProfileSelection(x))
    } else {
        match position(overlay_ids(os), x) {
            None => Some(DomainFault::UnknownOverlayReference(x)),
            Some(k) => if os[k].class@ != class {
                Some(DomainFault::OverlayClassMismatch { overlay: os[k].id@, expected: class, actual: os[k].class@ })
            } else {
                None
            },
        }
    }
}

/// The first problem among the overlays selected for one class.
pub open spec fn members_fault(os: Seq<Overlay>, class: Seq<char>, selected: Seq<Seq<char>>) -> Option<DomainFault>
    decreases selected.len(),
{
    if selected.len() == 0 {
        None
    } else {
        match members_fault(os, class, selected.drop_last()) {
            Some(e) => Some(e),
            None => member_fault(os, class, selected.drop_last(), selected.last()),
        }
    }
}

/// The first problem with one selection entry of a profile.
pub open spec fn entry_fault(profile: Seq<char>, cs: Seq<OverlayClass>, os: Seq<Overlay>, entry: (Seq<char>, Seq<Seq<char>>)) -> Option<DomainFault> {
    match position(class_ids(cs), entry.0) {
        None => Some(DomainFault::UnknownProfileClass { profile, class: entry.0 }),
        Some(c) => if !within(cs[c].cardinality.spec_minimum(), cs[c].cardinality.spec_maximum(), entry.1.len() as int) {
            Some(DomainFault::CardinalityViolation { profile, class: entry.0, count: entry.1.len() as usize })
        } else {
            members_fault(os, entry.0, entry.1)
        },
    }
}

/// The first problem among the selection entries of a profile, in class-identifier order.
pub open spec fn entries_fault(profile: Seq<char>, cs: Seq<OverlayClass>, os: Seq<Overlay>, entries: Seq<(Seq<char>, Seq<Seq<char>>)>) -> Option<DomainFault>
    decreases entries.len(),
{
    if entries.len() == 0 {
        None
    } else {
        match entries_fault(profile, cs, os, entries.drop_last()) {
            Some(e) => Some(e),
            None => entry_fault(profile, cs, os, entries.last()),
        }
    }
}

/// The first class, in the given class order, that a profile leaves out
/// although its cardinality asks for a selection: an absent selection counts
/// as zero overlays.
pub open spec fn omitted_fault(profile: Seq<char>, cs: Seq<OverlayClass>, sels: Seq<(Seq<char>, Seq<Seq<char>>)>) -> Option<DomainFault>
    decreases cs.len(),
{
    if cs.len() == 0 {
        None
    } else {
        match omitted_fault(profile, cs.drop_last(), sels) {
            Some(e) => Some(e),
            None => if lookup(sels, cs.last().id@) is None && !within(
                cs.last().cardinality.spec_minimum(),
                cs.last().cardinality.spec_maximum(),
                0,
            ) {
                Some(DomainFault::CardinalityViolation { profile, class: cs.last().id@, count: 0 })
            } else {
                None
            },
        }
    }
}

/// The first problem with one profile: its selection entries, then the
/// classes it leaves out.
pub open spec fn profile_fault(p: Profile, cs: Seq<OverlayClass>, os: Seq<Overlay>) -> Option<DomainFault> {
    match entries_fault(p.id@, cs, os, p.selections@) {
        Some(e) => Some(e),
        None => omitted_fault(p.id@, cs, p.selections@),
    }
}

/// The first problem among profiles, in the given order.
pub open spec fn profiles_fault(ps: Seq<Profile>, cs: Seq<OverlayClass>, os: Seq<Overlay>) -> Option<DomainFault>
    decreases ps.len(),
{
    if ps.len() == 0 {
        None
    } else {
        match profiles_fault(ps.drop_last(), cs, os) {
            Some(e) => Some(e),
            None => profile_fault(ps.last(), cs, os),
        }
    }
}

/// The classes listed in strictly increasing order of `order` (meaningful
/// when their orders are distinct).
pub open spec fn sorted_classes(cs: Seq<OverlayClass>) -> Seq<OverlayClass> {
    choose|s: Seq<OverlayClass>| s.to_multiset() == cs.to_multiset() && orders_increasing(s)
}

/// The first rule that a pack's declarations break before the classes are
/// ordered: unique class, overlay, profile, and variable identifiers (in
/// declaration order), then distinct class orders.
pub open spec fn declarations_fault(
    cs: Seq<OverlayClass>,
    os: Seq<Overlay>,
    ps: Seq<Profile>,
    vs: Seq<Variable>,
) -> Option<DomainFault> {
    if first_repeat(class_ids(cs)) is Some {
        Some(DomainFault::DuplicateIdentifier { kind: "class"@, identifier: class_ids(cs)[first_repeat(class_ids(cs))->0] })
    } else if first_repeat(overlay_ids(os)) is Some {
        Some(DomainFault::DuplicateIdentifier { kind: "overlay"@, identifier: overlay_ids(os)[first_repeat(overlay_ids(os))->0] })
    } else if first_repeat(profile_ids(ps)) is Some {
        Some(DomainFault::DuplicateIdentifier { kind: "profile"@, identifier: profile_ids(ps)[first_repeat(profile_ids(ps))->0] })
    } else if first_repeat(variable_names(vs)) is Some {
        Some(DomainFault::DuplicateIdentifier { kind: "variable"@, identifier: variable_names(vs)[first_repeat(variable_names(vs))->0] })
    } else if least_duplicated_order(cs) is Some {
        Some(DomainFault::DuplicateClassOrder(least_duplicated_order(cs)->0))
    } else {
        None
    }
}

/// The first problem in the arrangement of a pack's parts, taken in the given
/// order: overlay references, then profile selections.
pub open spec fn arrangement_fault(cs: Seq<OverlayClass>, os: Seq<Overlay>, ps: Seq<Profile>) -> Option<DomainFault> {
    if overlays_fault(os, class_ids(cs), overlay_ids(os)) is Some {
        overlays_fault(os, class_ids(cs), overlay_ids(os))
    } else {
        profiles_fault(ps, cs, os)
    }
}

/// The first rule that a pack's parts break: the rules of
/// `declarations_fault`, then those of `arrangement_fault` with the classes
/// in increasing order and the overlays and profiles as declared.
pub open spec fn parts_fault(
    cs: Seq<OverlayClass>,
    os: Seq<Overlay>,
    ps: Seq<Profile>,
    vs: Seq<Variable>,
) -> Option<DomainFault> {
    if declarations_fault(cs, os, ps, vs) is Some {
        declarations_fault(cs, os, ps, vs)
    } else {
        arrangement_fault(sorted_classes(cs), os, ps)
    }
}

/// The normalized listing of a pack's parts: classes in strictly increasing
/// order; overlays, profiles, and variables in strictly increasing
/// identifier order.
pub open spec fn parts_normalized(cs: Seq<OverlayClass>, os: Seq<Overlay>, ps: Seq<Profile>, vs: Seq<Variable>) -> bool {
    &&& orders_increasing(cs)
    &&& strictly_sorted(overlay_ids(os))
    &&& strictly_sorted(profile_ids(ps))
    &&& strictly_sorted(variable_names(vs))
}

/// The first rule that a pack with these parts breaks: a non-empty schema
/// family, then the rules of `parts_fault`.
pub open spec fn pack_fault(
    schema_family: Seq<char>,
    cs: Seq<OverlayClass>,
    os: Seq<Overlay>,
    ps: Seq<Profile>,
    vs: Seq<Variable>,
) -> Option<DomainFault> {
    if schema_family.len() == 0 {
        Some(DomainFault::EmptySchemaFamily)
    } else {
        parts_fault(cs, os, ps, vs)
    }
}

/// Two classes declare the same identifier, order and bounds.
pub open spec fn same_class(a: OverlayClass, b: OverlayClass) -> bool {
    &&& a.id@ == b.id@
    &&& a.order == b.order
    &&& a.cardinality.spec_minimum() == b.cardinality.spec_minimum()
    &&& a.cardinality.spec_maximum() == b.cardinality.spec_maximum()
}

/// Two overlays declare the same identifier, class, source and incompatibilities.
pub open spec fn same_overlay(a: Overlay, b: Overlay) -> bool {
    &&& a.id@ == b.id@
    &&& a.class@ == b.class@
    &&& a.source@ == b.source@
    &&& a.incompatible_with@ == b.incompatible_with@
}

/// Two listings of a pack's parts hold the same declarations, text for text.
pub open spec fn same_parts(
    cs1: Seq<OverlayClass>,
    os1: Seq<Overlay>,
    ps1: Seq<Profile>,
    vs1: Seq<Variable>,
    cs2: Seq<OverlayClass>,
    os2: Seq<Overlay>,
    ps2: Seq<Profile>,
    vs2: Seq<Variable>,
) -> bool {
    &&& cs1.len() == cs2.len()
    &&& forall|i: int| 0 <= i < cs1.len() ==> same_class(#[trigger] cs1[i], cs2[i])
    &&& os1.len() == os2.len()
    &&& forall|i: int| 0 <= i < os1.len() ==> same_overlay(#[trigger] os1[i], os2[i])
    &&& ps1.len() == ps2.len()
    &&& forall|i: int| 0 <= i < ps1.len() ==> (#[trigger] ps1[i]).id@ == ps2[i].id@ && ps1[i].selections@
        == ps2[i].selections@
    &&& vs1.len() == vs2.len()
    &&& forall|i: int| 0 <= i < vs1.len() ==> (#[trigger] vs1[i]).name@ == vs2[i].name@ && vs1[i].sensitivity
        == vs2[i].sensitivity
}

proof fn lemma_overlays_fault_by_views(os1: Seq<Overlay>, os2: Seq<Overlay>, cl: Seq<Seq<char>>, ov: Seq<Seq<char>>)
    requires
        os1.len() == os2.len(),
        forall|i: int| 0 <= i < os1.len() ==> same_overlay(#[trigger] os1[i], os2[i]),
    ensures
        overlays_fault(os1, cl, ov) == overlays_fault(os2, cl, ov),
    decreases os1.len(),
{
    if os1.len() > 0 {
        lemma_overlays_fault_by_views(os1.drop_last(), os2.drop_last(), cl, ov);
        assert(same_overlay(os1[os1.len() - 1], os2[os2.len() - 1]));
    }
}

proof fn lemma_members_fault_by_views(os1: Seq<Overlay>, os2: Seq<Overlay>, class: Seq<char>, selected: Seq<Seq<char>>)
    requires
        os1.len() == os2.len(),
        forall|i: int| 0 <= i < os1.len() ==> same_overlay(#[trigger] os1[i], os2[i]),
    ensures
        members_fault(os1, class, selected) == members_fault(os2, class, selected),
    decreases selected.len(),
{
    assert(overlay_ids(os1) =~= overlay_ids(os2)) by {
        assert forall|i: int| 0 <= i < os1.len() implies overlay_ids(os1)[i] == overlay_ids(os2)[i] by {
            assert(same_overlay(os1[i], os2[i]));
        }
    }
    if selected.len() > 0 {
        lemma_members_fault_by_views(os1, os2, class, selected.drop_last());
        let x = selected.last();
        lemma_position_some(overlay_ids(os1), x);
        if let Some(k) = position(overlay_ids(os1), x) {
            assert(same_overlay(os1[k], os2[k]));
        }
    }
}

proof fn lemma_entries_fault_by_views(
    profile: Seq<char>,
    cs1: Seq<OverlayClass>,
    cs2: Seq<OverlayClass>,
    os1: Seq<Overlay>,
    os2: Seq<Overlay>,
    entries: Seq<(Seq<char>, Seq<Seq<char>>)>,
)
    requires
        cs1.len() == cs2.len(),
        forall|i: int| 0 <= i < cs1.len() ==> same_class(#[trigger] cs1[i], cs2[i]),
        os1.len() == os2.len(),
        forall|i: int| 0 <= i < os1.len() ==> same_overlay(#[trigger] os1[i], os2[i]),
    ensures
        entries_fault(profile, cs1, os1, entries) == entries_fault(profile, cs2, os2, entries),
    decreases entries.len(),
{
    assert(class_ids(cs1) =~= class_ids(cs2)) by {
        assert forall|i: int| 0 <= i < cs1.len() implies class_ids(cs1)[i] == class_ids(cs2)[i] by {
            assert(same_class(cs1[i], cs2[i]));
        }
    }
    if entries.len() > 0 {
        lemma_entries_fault_by_views(profile, cs1, cs2, os1, os2, entries.drop_last());
        let e = entries.last();
        lemma_position_some(class_ids(cs1), e.0);
        if let Some(c) = position(class_ids(cs1), e.0) {
            assert(same_class(cs1[c], cs2[c]));
        }
        lemma_members_fault_by_views(os1, os2, e.0, e.1);
    }
}

proof fn lemma_omitted_fault_by_views(
    profile: Seq<char>,
    cs1: Seq<OverlayClass>,
    cs2: Seq<OverlayClass>,
    sels: Seq<(Seq<char>, Seq<Seq<char>>)>,
)
    requires
        cs1.len() == cs2.len(),
        forall|i: int| 0 <= i < cs1.len() ==> same_class(#[trigger] cs1[i], cs2[i]),
    ensures
        omitted_fault(profile, cs1, sels) == omitted_fault(profile, cs2, sels),
    decreases cs1.len(),
{
    if cs1.len() > 0 {
        lemma_omitted_fault_by_views(profile, cs1.drop_last(), cs2.drop_last(), sels);
        assert(same_class(cs1[cs1.len() - 1], cs2[cs2.len() - 1]));
    }
}

proof fn lemma_profiles_fault_by_views(
    ps1: Seq<Profile>,
    ps2: Seq<Profile>,
    cs1: Seq<OverlayClass>,
    cs2: Seq<OverlayClass>,
    os1: Seq<Overlay>,
    os2: Seq<Overlay>,
)
    requires
        cs1.len() == cs2.len(),
        forall|i: int| 0 <= i < cs1.len() ==> same_class(#[trigger] cs1[i], cs2[i]),
        os1.len() == os2.len(),
        forall|i: int| 0 <= i < os1.len() ==> same_overlay(#[trigger] os1[i], os2[i]),
        ps1.len() == ps2.len(),
        forall|i: int| 0 <= i < ps1.len() ==> (#[trigger] ps1[i]).id@ == ps2[i].id@ && ps1[i].selections@
            == ps2[i].selections@,
    ensures
        profiles_fault(ps1, cs1, os1) == profiles_fault(ps2, cs2, os2),
    decreases ps1.len(),
{
    if ps1.len() > 0 {
        lemma_profiles_fault_by_views(ps1.drop_last(), ps2.drop_last(), cs1, cs2, os1, os2);
        let n = ps1.len() - 1;
        assert(ps1[n].id@ == ps2[n].id@ && ps1[n].selections@ == ps2[n].selections@);
        lemma_entries_fault_by_views(ps1.last().id@, cs1, cs2, os1, os2, ps1.last().selections@);
        lemma_omitted_fault_by_views(ps1.last().id@, cs1, cs2, ps1.last().selections@);
    }
}

/// The rules of `parts_fault` read only the texts and values of the
/// declarations: two listings of the same declarations, the first
/// normalized, are both normalized and break the same rule.
pub proof fn lemma_parts_fault_by_views(
    cs1: Seq<OverlayClass>,
    os1: Seq<Overlay>,
    ps1: Seq<Profile>,
    vs1: Seq<Variable>,
    cs2: Seq<OverlayClass>,
    os2: Seq<Overlay>,
    ps2: Seq<Profile>,
    vs2: Seq<Variable>,
)
    requires
        same_parts(cs1, os1, ps1, vs1, cs2, os2, ps2, vs2),
        parts_normalized(cs1, os1, ps1, vs1),
    ensures
        parts_normalized(cs2, os2, ps2, vs2),
        parts_fault(cs1, os1, ps1, vs1) == parts_fault(cs2, os2, ps2, vs2),
{
    assert forall|i: int, j: int| 0 <= i < j < cs2.len() implies (#[trigger] cs2[i]).order < (#[trigger] cs2[j]).order by {
        assert(same_class(cs1[i], cs2[i]));
        assert(same_class(cs1[j], cs2[j]));
        assert(cs1[i].order < cs1[j].order);
    }
    assert(class_ids(cs1) =~= class_ids(cs2)) by {
        assert forall|i: int| 0 <= i < cs1.len() implies class_ids(cs1)[i] == class_ids(cs2)[i] by {
            assert(same_class(cs1[i], cs2[i]));
        }
    }
    assert(overlay_ids(os1) =~= overlay_ids(os2)) by {
        assert forall|i: int| 0 <= i < os1.len() implies overlay_ids(os1)[i] == overlay_ids(os2)[i] by {
            assert(same_overlay(os1[i], os2[i]));
        }
    }
    assert(profile_ids(ps1) =~= profile_ids(ps2));
    assert(variable_names(vs1) =~= variable_names(vs2));
    assert(keys(os1) =~= overlay_ids(os1));
    assert(keys(os2) =~= overlay_ids(os2));
    assert(keys(ps1) =~= profile_ids(ps1));
    assert(keys(ps2) =~= profile_ids(ps2));
    lemma_increasing_orders_distinct(cs1);
    lemma_increasing_orders_distinct(cs2);
    lemma_sorted_classes_is(cs1, cs1);
    lemma_sorted_classes_is(cs2, cs2);
    lemma_overlays_fault_by_views(os1, os2, class_ids(cs1), overlay_ids(os1));
    lemma_profiles_fault_by_views(ps1, ps2, cs1, cs2, os1, os2);
}

/// Normalized parts that break no rule are well arranged as listed: every
/// overlay reference and profile selection holds against the classes,
/// overlays, and profiles in their normalized order.
pub proof fn lemma_normalized_parts_arranged(cs: Seq<OverlayClass>, os: Seq<Overlay>, ps: Seq<Profile>, vs: Seq<Variable>)
    requires
        parts_normalized(cs, os, ps, vs),
        parts_fault(cs, os, ps, vs) is None,
    ensures
        declarations_fault(cs, os, ps, vs) is None,
        arrangement_fault(cs, os, ps) is None,
{
    assert(keys(os) =~= overlay_ids(os));
    assert(keys(ps) =~= profile_ids(ps));
    lemma_sorted_classes_is(cs, cs);
}

/// A profile selection entry that respects the pack: its class is declared
/// and accepts the number of overlays selected, and those overlays are
/// distinct, declared, and of that class.
pub open spec fn selection_respects(cs: Seq<OverlayClass>, os: Seq<Overlay>, entry: (Seq<char>, Seq<Seq<char>>)) -> bool {
    &&& exists|c: int|
        0 <= c < cs.len() && (#[trigger] cs[c]).id@ == entry.0 && within(
            cs[c].cardinality.spec_minimum(),
            cs[c].cardinality.spec_maximum(),
            entry.1.len() as int,
        )
    &&& entry.1.no_duplicates()
    &&& forall|k: int|
        0 <= k < entry.1.len() ==> exists|o: int| 0 <= o < os.len() && os[o].id@ == #[trigger] entry.1[k] && os[o].class@ == entry.0
}

/// A profile leaves out no class whose cardinality asks for a selection.
pub open spec fn profile_complete(cs: Seq<OverlayClass>, sels: Seq<(Seq<char>, Seq<Seq<char>>)>) -> bool {
    forall|c: int|
        0 <= c < cs.len() ==> lookup(sels, (#[trigger] cs[c]).id@) is Some || within(
            cs[c].cardinality.spec_minimum(),
            cs[c].cardinality.spec_maximum(),
            0,
        )
}

proof fn lemma_first_absent_none(s: Seq<Seq<char>>, pool: Seq<Seq<char>>)
    requires
        first_absent(s, pool) is None,
    ensures
        forall|k: int| 0 <= k < s.len() ==> pool.contains(#[trigger] s[k]),
    decreases s.len(),
{
    if s.len() > 0 {
        lemma_first_absent_none(s.drop_last(), pool);
        assert forall|k: int| 0 <= k < s.len() implies pool.contains(#[trigger] s[k]) by {
            if k < s.len() - 1 {
                assert(s.drop_last()[k] == s[k]);
            }
        }
    }
}

proof fn lemma_overlays_fault_none_each(os: Seq<Overlay>, cl: Seq<Seq<char>>, ov: Seq<Seq<char>>)
    requires
        overlays_fault(os, cl, ov) is None,
    ensures
        forall|i: int| 0 <= i < os.len() ==> overlay_fault(#[trigger] os[i], cl, ov) is None,
    decreases os.len(),
{
    if os.len() > 0 {
        lemma_overlays_fault_none_each(os.drop_last(), cl, ov);
        assert forall|i: int| 0 <= i < os.len() implies overlay_fault(#[trigger] os[i], cl, ov) is None by {
            if i < os.len() - 1 {
                assert(os.drop_last()[i] == os[i]);
            }
        }
    }
}

proof fn lemma_profiles_fault_none_each(ps: Seq<Profile>, cs: Seq<OverlayClass>, os: Seq<Overlay>)
    requires
        profiles_fault(ps, cs, os) is None,
    ensures
        forall|i: int| 0 <= i < ps.len() ==> profile_fault(#[trigger] ps[i], cs, os) is None,
    decreases ps.len(),
{
    if ps.len() > 0 {
        lemma_profiles_fault_none_each(ps.drop_last(), cs, os);
        assert forall|i: int| 0 <= i < ps.len() implies profile_fault(#[trigger] ps[i], cs, os) is None by {
            if i < ps.len() - 1 {
                assert(ps.drop_last()[i] == ps[i]);
            }
        }
    }
}

proof fn lemma_entries_fault_none_each(
    p: Seq<char>,
    cs: Seq<OverlayClass>,
    os: Seq<Overlay>,
    es: Seq<(Seq<char>, Seq<Seq<char>>)>,
)
    requires
        entries_fault(p, cs, os, es) is None,
    ensures
        forall|i: int| 0 <= i < es.len() ==> entry_fault(p, cs, os, #[trigger] es[i]) is None,
    decreases es.len(),
{
    if es.len() > 0 {
        lemma_entries_fault_none_each(p, cs, os, es.drop_last());
        assert forall|i: int| 0 <= i < es.len() implies entry_fault(p, cs, os, #[trigger] es[i]) is None by {
            if i < es.len() - 1 {
                assert(es.drop_last()[i] == es[i]);
            }
        }
    }
}

proof fn lemma_members_fault_none(os: Seq<Overlay>, class: Seq<char>, sel: Seq<Seq<char>>)
    requires
        members_fault(os, class, sel) is None,
    ensures
        sel.no_duplicates(),
        forall|k: int|
            0 <= k < sel.len() ==> exists|o: int| 0 <= o < os.len() && os[o].id@ == #[trigger] sel[k] && os[o].class@ == class,
    decreases sel.len(),
{
    if sel.len() > 0 {
        let d = sel.drop_last();
        lemma_members_fault_none(os, class, d);
        let x = sel.last();
        assert(!d.contains(x));
        lemma_position_some(overlay_ids(os), x);
        let o = position(overlay_ids(os), x)->0;
        assert(overlay_ids(os)[o] == os[o].id@);
        assert forall|i: int, j: int| 0 <= i < sel.len() && 0 <= j < sel.len() && i != j implies sel[i] != sel[j] by {
            if i < sel.len() - 1 && j < sel.len() - 1 {
                assert(d[i] != d[j]);
            } else if i == sel.len() - 1 {
                assert(d[j] == sel[j]);
            } else {
                assert(d[i] == sel[i]);
            }
        }
        assert forall|k: int| 0 <= k < sel.len() implies exists|q: int|
            0 <= q < os.len() && os[q].id@ == #[trigger] sel[k] && os[q].class@ == class by {
            if k < sel.len() - 1 {
                assert(d[k] == sel[k]);
            } else {
                assert(os[o].id@ == sel[k] && os[o].class@ == class);
            }
        }
    }
}

proof fn lemma_omitted_fault_none(profile: Seq<char>, cs: Seq<OverlayClass>, sels: Seq<(Seq<char>, Seq<Seq<char>>)>)
    requires
        omitted_fault(profile, cs, sels) is None,
    ensures
        profile_complete(cs, sels),
    decreases cs.len(),
{
    if cs.len() > 0 {
        lemma_omitted_fault_none(profile, cs.drop_last(), sels);
        assert forall|c: int| 0 <= c < cs.len() implies lookup(sels, (#[trigger] cs[c]).id@) is Some || within(
            cs[c].cardinality.spec_minimum(),
            cs[c].cardinality.spec_maximum(),
            0,
        ) by {
            if c < cs.len() - 1 {
                assert(cs.drop_last()[c] == cs[c]);
            }
        }
    }
}

/// What it means that a pack's normalized parts break no rule, rule by rule:
/// identifiers do not repeat within classes, overlays, profiles, or
/// variables; class orders are distinct; every overlay names a declared class
/// and declares incompatibilities only with declared overlays; every profile
/// selection respects the pack; and no profile leaves out a class whose
/// cardinality asks for a selection.
pub proof fn lemma_valid_parts_hold_every_rule(cs: Seq<OverlayClass>, os: Seq<Overlay>, ps: Seq<Profile>, vs: Seq<Variable>)
    requires
        parts_normalized(cs, os, ps, vs),
        parts_fault(cs, os, ps, vs) is None,
    ensures
        class_ids(cs).no_duplicates(),
        overlay_ids(os).no_duplicates(),
        profile_ids(ps).no_duplicates(),
        variable_names(vs).no_duplicates(),
        forall|i: int, j: int| 0 <= i < cs.len() && 0 <= j < cs.len() && i != j ==> cs[i].order != cs[j].order,
        forall|i: int| 0 <= i < os.len() ==> class_ids(cs).contains((#[trigger] os[i]).class@),
        forall|i: int, k: int|
            0 <= i < os.len() && 0 <= k < os[i].incompatible_with@.len() ==> overlay_ids(os).contains(
                (#[trigger] os[i].incompatible_with@[k]),
            ),
        forall|i: int, j: int|
            0 <= i < ps.len() && 0 <= j < ps[i].selections@.len() ==> selection_respects(
                cs,
                os,
                #[trigger] ps[i].selections@[j],
            ),
        forall|i: int| 0 <= i < ps.len() ==> profile_complete(cs, (#[trigger] ps[i]).selections@),
{
    lemma_normalized_parts_arranged(cs, os, ps, vs);
    lemma_first_repeat_none(class_ids(cs));
    lemma_first_repeat_none(overlay_ids(os));
    lemma_first_repeat_none(profile_ids(ps));
    lemma_first_repeat_none(variable_names(vs));
    assert forall|i: int, j: int| 0 <= i < cs.len() && 0 <= j < cs.len() && i != j implies cs[i].order != cs[j].order by {
        if i < j {
            assert(cs[i].order < cs[j].order);
        } else {
            assert(cs[j].order < cs[i].order);
        }
    }
    assert(overlays_fault(os, class_ids(cs), overlay_ids(os)) is None);
    lemma_overlays_fault_none_each(os, class_ids(cs), overlay_ids(os));
    assert forall|i: int| 0 <= i < os.len() implies class_ids(cs).contains((#[trigger] os[i]).class@) by {
        assert(overlay_fault(os[i], class_ids(cs), overlay_ids(os)) is None);
    }
    assert forall|i: int, k: int| 0 <= i < os.len() && 0 <= k < os[i].incompatible_with@.len() implies overlay_ids(
        os,
    ).contains((#[trigger] os[i].incompatible_with@[k])) by {
        assert(overlay_fault(os[i], class_ids(cs), overlay_ids(os)) is None);
        lemma_first_absent_none(os[i].incompatible_with@, overlay_ids(os));
    }
    assert(profiles_fault(ps, cs, os) is None);
    lemma_profiles_fault_none_each(ps, cs, os);
    assert forall|i: int, j: int| 0 <= i < ps.len() && 0 <= j < ps[i].selections@.len() implies selection_respects(
        cs,
        os,
        #[trigger] ps[i].selections@[j],
    ) by {
        assert(profile_fault(ps[i], cs, os) is None);
        lemma_entries_fault_none_each(ps[i].id@, cs, os, ps[i].selections@);
        let e = ps[i].selections@[j];
        assert(entry_fault(ps[i].id@, cs, os, e) is None);
        lemma_position_some(class_ids(cs), e.0);
        let c = position(class_ids(cs), e.0)->0;
        assert(class_ids(cs)[c] == cs[c].id@);
        lemma_members_fault_none(os, e.0, e.1);
    }
    assert forall|i: int| 0 <= i < ps.len() implies profile_complete(cs, (#[trigger] ps[i]).selections@) by {
        assert(profile_fault(ps[i], cs, os) is None);
        lemma_omitted_fault_none(ps[i].id@, cs, ps[i].selections@);
    }
}

pub(crate) proof fn lemma_position_of_unique(s: Seq<Seq<char>>, c: int)
    requires
        0 <= c < s.len(),
        s.no_duplicates(),
    ensures
        position(s, s[c]) == Some(c),
{
    lemma_position_some(s, s[c]);
    assert(s.contains(s[c]));
}

proof fn lemma_first_absent_none_from(s: Seq<Seq<char>>, pool: Seq<Seq<char>>)
    requires
        forall|k: int| 0 <= k < s.len() ==> pool.contains(#[trigger] s[k]),
    ensures
        first_absent(s, pool) is None,
    decreases s.len(),
{
    if s.len() > 0 {
        assert forall|k: int| 0 <= k < s.drop_last().len() implies pool.contains(#[trigger] s.drop_last()[k]) by {
            assert(s.drop_last()[k] == s[k]);
        }
        lemma_first_absent_none_from(s.drop_last(), pool);
        assert(pool.contains(s[s.len() - 1]));
    }
}

proof fn lemma_members_fault_none_from(os: Seq<Overlay>, class: Seq<char>, sel: Seq<Seq<char>>)
    requires
        overlay_ids(os).no_duplicates(),
        sel.no_duplicates(),
        forall|k: int|
            0 <= k < sel.len() ==> exists|o: int| 0 <= o < os.len() && os[o].id@ == #[trigger] sel[k] && os[o].class@ == class,
    ensures
        members_fault(os, class, sel) is None,
    decreases sel.len(),
{
    if sel.len() > 0 {
        let d = sel.drop_last();
        assert forall|k: int| 0 <= k < d.len() implies exists|o: int|
            0 <= o < os.len() && os[o].id@ == #[trigger] d[k] && os[o].class@ == class by {
            assert(d[k] == sel[k]);
        }
        assert forall|i: int, j: int| 0 <= i < d.len() && 0 <= j < d.len() && i != j implies d[i] != d[j] by {
            assert(d[i] == sel[i] && d[j] == sel[j]);
        }
        lemma_members_fault_none_from(os, class, d);
        let k = sel.len() - 1;
        let x = sel[k];
        if d.contains(x) {
            let q = choose|q: int| 0 <= q < d.len() && d[q] == x;
            assert(sel[q] == sel[k]);
        }
        let o = choose|o: int| 0 <= o < os.len() && os[o].id@ == sel[k] && os[o].class@ == class;
        assert(overlay_ids(os)[o] == os[o].id@);
        lemma_position_of_unique(overlay_ids(os), o);
    }
}

proof fn lemma_entries_fault_none_from(p: Seq<char>, cs: Seq<OverlayClass>, os: Seq<Overlay>, es: Seq<(Seq<char>, Seq<Seq<char>>)>)
    requires
        class_ids(cs).no_duplicates(),
        overlay_ids(os).no_duplicates(),
        forall|j: int| 0 <= j < es.len() ==> selection_respects(cs, os, #[trigger] es[j]),
    ensures
        entries_fault(p, cs, os, es) is None,
    decreases es.len(),
{
    if es.len() > 0 {
        assert forall|j: int| 0 <= j < es.drop_last().len() implies selection_respects(cs, os, #[trigger] es.drop_last()[j]) by {
            assert(es.drop_last()[j] == es[j]);
        }
        lemma_entries_fault_none_from(p, cs, os, es.drop_last());
        let e = es[es.len() - 1];
        assert(selection_respects(cs, os, e));
        let c = choose|c: int|
            0 <= c < cs.len() && (#[trigger] cs[c]).id@ == e.0 && within(
                cs[c].cardinality.spec_minimum(),
                cs[c].cardinality.spec_maximum(),
                e.1.len() as int,
            );
        assert(class_ids(cs)[c] == cs[c].id@);
        lemma_position_of_unique(class_ids(cs), c);
        lemma_members_fault_none_from(os, e.0, e.1);
    }
}

proof fn lemma_omitted_fault_none_from(profile: Seq<char>, cs: Seq<OverlayClass>, sels: Seq<(Seq<char>, Seq<Seq<char>>)>)
    requires
        profile_complete(cs, sels),
    ensures
        omitted_fault(profile, cs, sels) is None,
    decreases cs.len(),
{
    if cs.len() > 0 {
        assert forall|c: int| 0 <= c < cs.drop_last().len() implies lookup(sels, (#[trigger] cs.drop_last()[c]).id@) is Some
            || within(
            cs.drop_last()[c].cardinality.spec_minimum(),
            cs.drop_last()[c].cardinality.spec_maximum(),
            0,
        ) by {
            assert(cs.drop_last()[c] == cs[c]);
        }
        lemma_omitted_fault_none_from(profile, cs.drop_last(), sels);
        assert(cs.last() == cs[cs.len() - 1]);
    }
}

/// Profile validation accepts every profile that respects the pack: when
/// class and overlay identifiers are unique, a profile whose every selection
/// entry names a declared class that accepts the number of overlays
/// selected, with distinct declared overlays of that class, and which leaves
/// out only classes that accept zero overlays (an optional class, minimum
/// zero, may be left out), breaks no rule.
pub proof fn lemma_respecting_profile_is_accepted(p: Profile, cs: Seq<OverlayClass>, os: Seq<Overlay>)
    requires
        class_ids(cs).no_duplicates(),
        overlay_ids(os).no_duplicates(),
        forall|j: int| 0 <= j < p.selections@.len() ==> selection_respects(cs, os, #[trigger] p.selections@[j]),
        profile_complete(cs, p.selections@),
    ensures
        profile_fault(p, cs, os) is None,
{
    lemma_entries_fault_none_from(p.id@, cs, os, p.selections@);
    lemma_omitted_fault_none_from(p.id@, cs, p.selections@);
}

/// Pack validation is complete: normalized parts that keep every rule that
/// `lemma_valid_parts_hold_every_rule` lists (unique identifiers, distinct
/// class orders, declared overlay references, selections that respect the
/// pack, and omitted classes that accept zero overlays) break no rule.
pub proof fn lemma_parts_holding_every_rule_are_valid(cs: Seq<OverlayClass>, os: Seq<Overlay>, ps: Seq<Profile>, vs: Seq<Variable>)
    requires
        parts_normalized(cs, os, ps, vs),
        class_ids(cs).no_duplicates(),
        overlay_ids(os).no_duplicates(),
        profile_ids(ps).no_duplicates(),
        variable_names(vs).no_duplicates(),
        forall|i: int| 0 <= i < os.len() ==> class_ids(cs).contains((#[trigger] os[i]).class@),
        forall|i: int, k: int|
            0 <= i < os.len() && 0 <= k < os[i].incompatible_with@.len() ==> overlay_ids(os).contains(
                (#[trigger] os[i].incompatible_with@[k]),
            ),
        forall|i: int, j: int|
            0 <= i < ps.len() && 0 <= j < ps[i].selections@.len() ==> selection_respects(
                cs,
                os,
                #[trigger] ps[i].selections@[j],
            ),
        forall|i: int| 0 <= i < ps.len() ==> profile_complete(cs, (#[trigger] ps[i]).selections@),
    ensures
        parts_fault(cs, os, ps, vs) is None,
{
    lemma_first_repeat_none(class_ids(cs));
    lemma_first_repeat_none(overlay_ids(os));
    lemma_first_repeat_none(profile_ids(ps));
    lemma_first_repeat_none(variable_names(vs));
    assert forall|o: u32| !duplicated_order(cs, o) by {
        if duplicated_order(cs, o) {
            let (i, j) = choose|i: int, j: int| 0 <= i < j < cs.len() && cs[i].order == o && cs[j].order == o;
            assert(cs[i].order < cs[j].order);
        }
    }
    assert(declarations_fault(cs, os, ps, vs) is None);
    lemma_sorted_classes_is(cs, cs);
    assert forall|i: int| 0 <= i < os.len() implies overlay_fault(#[trigger] os[i], class_ids(cs), overlay_ids(os)) is None by {
        assert forall|k: int| 0 <= k < os[i].incompatible_with@.len() implies overlay_ids(os).contains(
            #[trigger] os[i].incompatible_with@[k],
        ) by {}
        lemma_first_absent_none_from(os[i].incompatible_with@, overlay_ids(os));
    }
    lemma_overlays_fault_none_from_each(os, class_ids(cs), overlay_ids(os));
    assert forall|i: int| 0 <= i < ps.len() implies profile_fault(#[trigger] ps[i], cs, os) is None by {
        assert forall|j: int| 0 <= j < ps[i].selections@.len() implies selection_respects(
            cs,
            os,
            #[trigger] ps[i].selections@[j],
        ) by {}
        lemma_respecting_profile_is_accepted(ps[i], cs, os);
    }
    lemma_profiles_fault_none_from_each(ps, cs, os);
}

proof fn lemma_first_absent_same_pool(s: Seq<Seq<char>>, pool1: Seq<Seq<char>>, pool2: Seq<Seq<char>>)
    requires
        forall|x: Seq<char>| pool1.contains(x) == pool2.contains(x),
    ensures
        first_absent(s, pool1) == first_absent(s, pool2),
    decreases s.len(),
{
    if s.len() > 0 {
        lemma_first_absent_same_pool(s.drop_last(), pool1, pool2);
        assert(pool1.contains(s.last()) == pool2.contains(s.last()));
    }
}

proof fn lemma_overlays_fault_none_from_each(os: Seq<Overlay>, cl: Seq<Seq<char>>, ov: Seq<Seq<char>>)
    requires
        forall|i: int| 0 <= i < os.len() ==> overlay_fault(#[trigger] os[i], cl, ov) is None,
    ensures
        overlays_fault(os, cl, ov) is None,
    decreases os.len(),
{
    if os.len() > 0 {
        assert forall|i: int| 0 <= i < os.drop_last().len() implies overlay_fault(#[trigger] os.drop_last()[i], cl, ov) is None by {
            assert(os.drop_last()[i] == os[i]);
        }
        lemma_overlays_fault_none_from_each(os.drop_last(), cl, ov);
        assert(overlay_fault(os[os.len() - 1], cl, ov) is None);
    }
}

proof fn lemma_profiles_fault_none_from_each(ps: Seq<Profile>, cs: Seq<OverlayClass>, os: Seq<Overlay>)
    requires
        forall|i: int| 0 <= i < ps.len() ==> profile_fault(#[trigger] ps[i], cs, os) is None,
    ensures
        profiles_fault(ps, cs, os) is None,
    decreases ps.len(),
{
    if ps.len() > 0 {
        assert forall|i: int| 0 <= i < ps.drop_last().len() implies profile_fault(#[trigger] ps.drop_last()[i], cs, os) is None by {
            assert(ps.drop_last()[i] == ps[i]);
        }
        lemma_profiles_fault_none_from_each(ps.drop_last(), cs, os);
        assert(profile_fault(ps[ps.len() - 1], cs, os) is None);
    }
}

/// An element of a reordering of `s` is an element of `s`.
proof fn lemma_reordered_member<T>(s: Seq<T>, t: Seq<T>, i: int) -> (a: int)
    requires
        s.to_multiset() == t.to_multiset(),
        0 <= i < t.len(),
    ensures
        0 <= a < s.len(),
        s[a] == t[i],
{
    broadcast use vstd::seq_lib::group_to_multiset_ensures;

    assert(t.to_multiset().count(t[i]) > 0);
    assert(s.contains(t[i]));
    choose|a: int| 0 <= a < s.len() && s[a] == t[i]
}

/// Reordering overlays keeps which identifiers they declare.
proof fn lemma_overlay_ids_reordered(os: Seq<Overlay>, os2: Seq<Overlay>)
    requires
        os.to_multiset() == os2.to_multiset(),
    ensures
        forall|x: Seq<char>| overlay_ids(os).contains(x) == overlay_ids(os2).contains(x),
{
    assert forall|x: Seq<char>| overlay_ids(os).contains(x) == overlay_ids(os2).contains(x) by {
        if overlay_ids(os).contains(x) {
            let i = choose|i: int| 0 <= i < overlay_ids(os).len() && overlay_ids(os)[i] == x;
            let a = lemma_reordered_member(os2, os, i);
            assert(overlay_ids(os2)[a] == x);
        }
        if overlay_ids(os2).contains(x) {
            let i = choose|i: int| 0 <= i < overlay_ids(os2).len() && overlay_ids(os2)[i] == x;
            let a = lemma_reordered_member(os, os2, i);
            assert(overlay_ids(os)[a] == x);
        }
    }
}

/// With distinct overlay identifiers, a selected overlay meets the same
/// fault against the overlays in any order.
proof fn lemma_member_fault_reordered(os: Seq<Overlay>, os2: Seq<Overlay>, class: Seq<char>, prior: Seq<Seq<char>>, x: Seq<char>)
    requires
        overlay_ids(os).no_duplicates(),
        os.to_multiset() == os2.to_multiset(),
    ensures
        member_fault(os, class, prior, x) == member_fault(os2, class, prior, x),
{
    lemma_overlay_ids_reordered(os, os2);
    lemma_position_some(overlay_ids(os), x);
    lemma_position_some(overlay_ids(os2), x);
    if let Some(k2) = position(overlay_ids(os2), x) {
        assert(overlay_ids(os2)[k2] == x);
        let k = position(overlay_ids(os), x)->0;
        let a = lemma_reordered_member(os, os2, k2);
        assert(overlay_ids(os)[a] == x);
        assert(overlay_ids(os)[k] == x);
        assert(a == k);
    }
}

proof fn lemma_members_fault_reordered(os: Seq<Overlay>, os2: Seq<Overlay>, class: Seq<char>, sel: Seq<Seq<char>>)
    requires
        overlay_ids(os).no_duplicates(),
        os.to_multiset() == os2.to_multiset(),
    ensures
        members_fault(os, class, sel) == members_fault(os2, class, sel),
    decreases sel.len(),
{
    if sel.len() > 0 {
        lemma_members_fault_reordered(os, os2, class, sel.drop_last());
        lemma_member_fault_reordered(os, os2, class, sel.drop_last(), sel.last());
    }
}

proof fn lemma_entries_fault_reordered(
    p: Seq<char>,
    cs: Seq<OverlayClass>,
    os: Seq<Overlay>,
    os2: Seq<Overlay>,
    es: Seq<(Seq<char>, Seq<Seq<char>>)>,
)
    requires
        overlay_ids(os).no_duplicates(),
        os.to_multiset() == os2.to_multiset(),
    ensures
        entries_fault(p, cs, os, es) == entries_fault(p, cs, os2, es),
    decreases es.len(),
{
    if es.len() > 0 {
        lemma_entries_fault_reordered(p, cs, os, os2, es.drop_last());
        lemma_members_fault_reordered(os, os2, es.last().0, es.last().1);
    }
}

/// With distinct overlay identifiers, validation of the arrangement passes
/// for the overlays and profiles in any order once it passes for one order.
proof fn lemma_arrangement_reordered(
    cs: Seq<OverlayClass>,
    os: Seq<Overlay>,
    ps: Seq<Profile>,
    os2: Seq<Overlay>,
    ps2: Seq<Profile>,
)
    requires
        arrangement_fault(cs, os, ps) is None,
        overlay_ids(os).no_duplicates(),
        os.to_multiset() == os2.to_multiset(),
        ps.to_multiset() == ps2.to_multiset(),
    ensures
        arrangement_fault(cs, os2, ps2) is None,
{
    let cl = class_ids(cs);
    lemma_overlay_ids_reordered(os, os2);
    lemma_overlays_fault_none_each(os, cl, overlay_ids(os));
    assert forall|i: int| 0 <= i < os2.len() implies overlay_fault(#[trigger] os2[i], cl, overlay_ids(os2)) is None by {
        let a = lemma_reordered_member(os, os2, i);
        assert(overlay_fault(os[a], cl, overlay_ids(os)) is None);
        lemma_first_absent_same_pool(os[a].incompatible_with@, overlay_ids(os), overlay_ids(os2));
    }
    lemma_overlays_fault_none_from_each(os2, cl, overlay_ids(os2));
    lemma_profiles_fault_none_each(ps, cs, os);
    assert forall|i: int| 0 <= i < ps2.len() implies profile_fault(#[trigger] ps2[i], cs, os2) is None by {
        let a = lemma_reordered_member(ps, ps2, i);
        assert(profile_fault(ps[a], cs, os) is None);
        lemma_entries_fault_reordered(ps[a].id@, cs, os, os2, ps[a].selections@);
    }
    lemma_profiles_fault_none_from_each(ps2, cs, os2);
}

/// Reports the first identifier that repeats an earlier one.
fn ensure_unique(ids: &Vec<&Identifier>, kind: &'static str) -> (r: Result<(), DomainError>)
    ensures
        match first_repeat(ids@.map_values(|i: &Identifier| i@)) {
            None => r is Ok,
            Some(j) => r matches Err(e) && e@ == DomainFault::DuplicateIdentifier {
                kind: kind@,
                identifier: ids@.map_values(|x: &Identifier| x@)[j],
            },
        },
{
    let ghost v = ids@.map_values(|i: &Identifier| i@);
    let n = ids.len();
    let mut j: usize = 0;
    while j < n
        invariant
            n == ids@.len(),
            v == ids@.map_values(|i: &Identifier| i@),
            0 <= j <= n,
            first_repeat(v.subrange(0, j as int)) is None,
        decreases n - j,
    {
        let mut i: usize = 0;
        while i < j
            invariant
                n == ids@.len(),
                v == ids@.map_values(|i: &Identifier| i@),
                0 <= i <= j < n,
                first_repeat(v.subrange(0, j as int)) is None,
                forall|k: int| 0 <= k < i ==> v[k] != v[j as int],
            decreases j - i,
        {
            if *ids[i] == *ids[j] {
                proof {
                    assert(v.subrange(0, j + 1).drop_last() =~= v.subrange(0, j as int));
                    assert(v.subrange(0, j as int).contains(v[j as int])) by {
                        assert(v.subrange(0, j as int)[i as int] == v[j as int]);
                    }
                    let s2 = v.subrange(0, j + 1);
                    assert(s2.last() == v[j as int]);
                    assert(s2.drop_last() == v.subrange(0, j as int));
                    assert(first_repeat(s2.drop_last()) is None);
                    assert(s2.drop_last().contains(s2.last()));
                    assert(first_repeat(s2) == Some(j as int));
                    lemma_first_repeat_prefix(v, j as int + 1);
                }
                let identifier = ids[j].clone();
                assert(identifier@ == v[j as int]);
                return Err(DomainError::DuplicateIdentifier { kind, identifier });
            }
            i = i + 1;
        }
        proof {
            assert(v.subrange(0, j + 1).drop_last() =~= v.subrange(0, j as int));
        }
        j = j + 1;
    }
    proof {
        assert(v.subrange(0, n as int) =~= v);
    }
    Ok(())
}

/// Finds the least order that two classes share.
fn find_duplicated_order(classes: &Vec<OverlayClass>) -> (r: Option<u32>)
    ensures
        r == least_duplicated_order(classes@),
{
    let ghost cs = classes@;
    let n = classes.len();
    let mut best: Option<u32> = None;
    let mut j: usize = 0;
    while j < n
        invariant
            n == cs.len(),
            cs == classes@,
            0 <= j <= n,
            best is None ==> forall|a: int, b: int| 0 <= a < b < j ==> cs[a].order != cs[b].order,
            best matches Some(m) ==> duplicated_order(cs, m) && forall|a: int, b: int|
                0 <= a < b < j && cs[a].order == cs[b].order ==> m <= cs[a].order,
        decreases n - j,
    {
        let mut i: usize = 0;
        while i < j
            invariant
                n == cs.len(),
                cs == classes@,
                0 <= i <= j < n,
                best is None ==> forall|a: int, b: int|
                    0 <= a < b < j || (0 <= a < i && b == j) ==> cs[a].order != cs[b].order,
                best matches Some(m) ==> duplicated_order(cs, m) && forall|a: int, b: int|
                    (0 <= a < b < j || (0 <= a < i && b == j)) && cs[a].order == cs[b].order ==> m
                        <= cs[a].order,
            decreases j - i,
        {
            let o = classes[i].order;
            if o == classes[j].order {
                assert(duplicated_order(cs, o)) by {
                    assert(0 <= i < j < cs.len() && cs[i as int].order == o && cs[j as int].order == o);
                }
                match best {
                    None => {
                        best = Some(o);
                    },
                    Some(m) => {
                        if o < m {
                            best = Some(o);
                        }
                    },
                }
            }
            i = i + 1;
        }
        j = j + 1;
    }
    proof {
        match best {
            None => {
                if exists|o: u32| duplicated_order(cs, o) {
                    let o = choose|o: u32| duplicated_order(cs, o);
                    let (a, b) = choose|a: int, b: int| 0 <= a < b < cs.len() && cs[a].order == o && cs[b].order == o;
                    assert(cs[a].order != cs[b].order);
                }
            },
            Some(m) => {
                assert forall|p: u32| #[trigger] duplicated_order(cs, p) implies m <= p by {
                    let (a, b) = choose|a: int, b: int| 0 <= a < b < cs.len() && cs[a].order == p && cs[b].order == p;
                    assert(cs[a].order == cs[b].order);
                }
                let c = choose|o: u32| duplicated_order(cs, o) && forall|p: u32| #![trigger duplicated_order(cs, p)] duplicated_order(cs, p) ==> o <= p;
                assert(duplicated_order(cs, m));
                assert(c <= m);
                assert(m <= c);
            },
        }
    }
    best
}

/// `position` finds the first occurrence.
pub proof fn lemma_position_first(s: Seq<Seq<char>>, x: Seq<char>, i: int)
    requires
        0 <= i < s.len(),
        s[i] == x,
        forall|j: int| 0 <= j < i ==> s[j] != x,
    ensures
        position(s, x) == Some(i),
    decreases s.len(),
{
    if i < s.len() - 1 {
        lemma_position_first(s.drop_last(), x, i);
    } else {
        lemma_position_absent(s.drop_last(), x);
    }
}

/// `position` finds nothing in a sequence without `x`.
pub proof fn lemma_position_absent(s: Seq<Seq<char>>, x: Seq<char>)
    requires
        !s.contains(x),
    ensures
        position(s, x) is None,
    decreases s.len(),
{
    if s.len() > 0 {
        assert(!s.drop_last().contains(x)) by {
            if s.drop_last().contains(x) {
                let k = choose|k: int| 0 <= k < s.drop_last().len() && s.drop_last()[k] == x;
                assert(s[k] == x);
            }
        }
        assert(s.last() == s[s.len() - 1]);
        lemma_position_absent(s.drop_last(), x);
    }
}

/// A found position names a matching element.
pub proof fn lemma_position_some(s: Seq<Seq<char>>, x: Seq<char>)
    ensures
        position(s, x) matches Some(i) ==> 0 <= i < s.len() && s[i] == x && forall|j: int|
            0 <= j < i ==> s[j] != x,
        position(s, x) is None ==> !s.contains(x),
    decreases s.len(),
{
    if s.len() > 0 {
        let d = s.drop_last();
        lemma_position_some(d, x);
        match position(d, x) {
            Some(i) => {
                assert(d[i] == s[i]);
                assert forall|j: int| 0 <= j < i implies s[j] != x by {
                    assert(d[j] == s[j]);
                }
            },
            None => {
                assert forall|j: int| 0 <= j < s.len() - 1 implies s[j] != x by {
                    assert(d[j] == s[j]);
                    if s[j] == x {
                        assert(d.contains(x));
                    }
                }
                if s.last() != x {
                    assert forall|k: int| 0 <= k < s.len() implies s[k] != x by {}
                }
            },
        }
    }
}

/// Finds the first class with an identifier.
fn find_class(classes: &Vec<OverlayClass>, id: &Identifier) -> (r: Option<usize>)
    ensures
        r matches Some(i) ==> position(class_ids(classes@), id@) == Some(i as int),
        r is None ==> position(class_ids(classes@), id@) is None,
{
    let ghost ids = class_ids(classes@);
    let n = classes.len();
    let mut i: usize = 0;
    while i < n
        invariant
            n == classes@.len(),
            ids == class_ids(classes@),
            0 <= i <= n,
            forall|j: int| 0 <= j < i ==> ids[j] != id@,
        decreases n - i,
    {
        if classes[i].id == *id {
            proof {
                lemma_position_first(ids, id@, i as int);
            }
            return Some(i);
        }
        i = i + 1;
    }
    proof {
        lemma_position_absent(ids, id@);
    }
    None
}

/// Finds the first overlay with an identifier.
pub(crate) fn find_overlay_in(overlays: &Vec<Overlay>, id: &Identifier) -> (r: Option<usize>)
    ensures
        r matches Some(i) ==> position(overlay_ids(overlays@), id@) == Some(i as int),
        r is None ==> position(overlay_ids(overlays@), id@) is None,
{
    let ghost ids = overlay_ids(overlays@);
    let n = overlays.len();
    let mut i: usize = 0;
    while i < n
        invariant
            n == overlays@.len(),
            ids == overlay_ids(overlays@),
            0 <= i <= n,
            forall|j: int| 0 <= j < i ==> ids[j] != id@,
        decreases n - i,
    {
        if overlays[i].id == *id {
            proof {
                lemma_position_first(ids, id@, i as int);
            }
            return Some(i);
        }
        i = i + 1;
    }
    proof {
        lemma_position_absent(ids, id@);
    }
    None
}

/// Once a prefix has an absent element, the whole sequence reports the same one.
proof fn lemma_first_absent_prefix(s: Seq<Seq<char>>, pool: Seq<Seq<char>>, k: int)
    requires
        0 <= k <= s.len(),
        first_absent(s.subrange(0, k), pool) is Some,
    ensures
        first_absent(s, pool) == first_absent(s.subrange(0, k), pool),
    decreases s.len() - k,
{
    if k < s.len() {
        assert(s.subrange(0, k + 1).drop_last() =~= s.subrange(0, k));
        lemma_first_absent_prefix(s, pool, k + 1);
    } else {
        assert(s.subrange(0, k) =~= s);
    }
}

proof fn lemma_overlays_fault_prefix(os: Seq<Overlay>, cl: Seq<Seq<char>>, ov: Seq<Seq<char>>, k: int)
    requires
        0 <= k <= os.len(),
        overlays_fault(os.subrange(0, k), cl, ov) is Some,
    ensures
        overlays_fault(os, cl, ov) == overlays_fault(os.subrange(0, k), cl, ov),
    decreases os.len() - k,
{
    if k < os.len() {
        assert(os.subrange(0, k + 1).drop_last() =~= os.subrange(0, k));
        lemma_overlays_fault_prefix(os, cl, ov, k + 1);
    } else {
        assert(os.subrange(0, k) =~= os);
    }
}

/// Checks one overlay's class and incompatibility references.
fn check_overlay(o: &Overlay, classes: &Vec<OverlayClass>, overlays: &Vec<Overlay>) -> (r: Result<(), DomainError>)
    ensures
        match overlay_fault(*o, class_ids(classes@), overlay_ids(overlays@)) {
            None => r is Ok,
            Some(f) => r matches Err(e) && e@ == f,
        },
{
    let ghost cl = class_ids(classes@);
    let ghost ov = overlay_ids(overlays@);
    match find_class(classes, &o.class) {
        None => {
            proof {
                lemma_position_some(cl, o.class@);
            }
            return Err(DomainError::UnknownClass { overlay: o.id.clone(), class: o.class.clone() });
        },
        Some(c) => {
            proof {
                lemma_position_some(cl, o.class@);
                assert(cl[c as int] == o.class@);
                assert(cl.contains(o.class@));
            }
        },
    }
    let ghost inc = o.incompatible_with@;
    let n = o.incompatible_with.len();
    let mut k: usize = 0;
    while k < n
        invariant
            n == inc.len(),
            inc == o.incompatible_with@,
            ov == overlay_ids(overlays@),
            cl == class_ids(classes@),
            cl.contains(o.class@),
            0 <= k <= n,
            first_absent(inc.subrange(0, k as int), ov) is None,
        decreases n - k,
    {
        let x = o.incompatible_with.get(k);
        assert(inc.subrange(0, k + 1).drop_last() =~= inc.subrange(0, k as int));
        assert(inc.subrange(0, k + 1).last() == x@);
        match find_overlay_in(overlays, x) {
            None => {
                proof {
                    lemma_position_some(ov, x@);
                    assert(first_absent(inc.subrange(0, k + 1), ov) == Some(k as int));
                    lemma_first_absent_prefix(inc, ov, k + 1);
                }
                let y = x.clone();
                assert(y@ == inc[k as int]);
                return Err(DomainError::UnknownOverlayReference(y));
            },
            Some(p) => {
                proof {
                    lemma_position_some(ov, x@);
                    assert(ov[p as int] == x@);
                    assert(ov.contains(x@));
                }
            },
        }
        k = k + 1;
    }
    assert(inc.subrange(0, n as int) =~= inc);
    Ok(())
}

/// Checks every overlay's class and incompatibility references, in order.
fn check_overlays(classes: &Vec<OverlayClass>, overlays: &Vec<Overlay>) -> (r: Result<(), DomainError>)
    ensures
        match overlays_fault(overlays@, class_ids(classes@), overlay_ids(overlays@)) {
            None => r is Ok,
            Some(f) => r matches Err(e) && e@ == f,
        },
{
    let ghost os = overlays@;
    let ghost cl = class_ids(classes@);
    let ghost ov = overlay_ids(overlays@);
    let n = overlays.len();
    let mut i: usize = 0;
    while i < n
        invariant
            n == os.len(),
            os == overlays@,
            cl == class_ids(classes@),
            ov == overlay_ids(overlays@),
            0 <= i <= n,
            overlays_fault(os.subrange(0, i as int), cl, ov) is None,
        decreases n - i,
    {
        assert(os.subrange(0, i + 1).drop_last() =~= os.subrange(0, i as int));
        assert(os.subrange(0, i + 1).last() == os[i as int]);
        let r = check_overlay(&overlays[i], classes, overlays);
        if r.is_err() {
            proof {
                lemma_overlays_fault_prefix(os, cl, ov, i + 1);
            }
            return r;
        }
        i = i + 1;
    }
    assert(os.subrange(0, n as int) =~= os);
    Ok(())
}

proof fn lemma_members_fault_prefix(os: Seq<Overlay>, c: Seq<char>, sel: Seq<Seq<char>>, k: int)
    requires
        0 <= k <= sel.len(),
        members_fault(os, c, sel.subrange(0, k)) is Some,
    ensures
        members_fault(os, c, sel) == members_fault(os, c, sel.subrange(0, k)),
    decreases sel.len() - k,
{
    if k < sel.len() {
        assert(sel.subrange(0, k + 1).drop_last() =~= sel.subrange(0, k));
        lemma_members_fault_prefix(os, c, sel, k + 1);
    } else {
        assert(sel.subrange(0, k) =~= sel);
    }
}

proof fn lemma_entries_fault_prefix(
    p: Seq<char>,
    cs: Seq<OverlayClass>,
    os: Seq<Overlay>,
    es: Seq<(Seq<char>, Seq<Seq<char>>)>,
    k: int,
)
    requires
        0 <= k <= es.len(),
        entries_fault(p, cs, os, es.subrange(0, k)) is Some,
    ensures
        entries_fault(p, cs, os, es) == entries_fault(p, cs, os, es.subrange(0, k)),
    decreases es.len() - k,
{
    if k < es.len() {
        assert(es.subrange(0, k + 1).drop_last() =~= es.subrange(0, k));
        lemma_entries_fault_prefix(p, cs, os, es, k + 1);
    } else {
        assert(es.subrange(0, k) =~= es);
    }
}

proof fn lemma_profiles_fault_prefix(ps: Seq<Profile>, cs: Seq<OverlayClass>, os: Seq<Overlay>, k: int)
    requires
        0 <= k <= ps.len(),
        profiles_fault(ps.subrange(0, k), cs, os) is Some,
    ensures
        profiles_fault(ps, cs, os) == profiles_fault(ps.subrange(0, k), cs, os),
    decreases ps.len() - k,
{
    if k < ps.len() {
        assert(ps.subrange(0, k + 1).drop_last() =~= ps.subrange(0, k));
        lemma_profiles_fault_prefix(ps, cs, os, k + 1);
    } else {
        assert(ps.subrange(0, k) =~= ps);
    }
}

/// Checks the overlays selected for one class, in selection order.
fn check_members(overlays: &Vec<Overlay>, class: &Identifier, selected: &Vec<Identifier>) -> (r: Result<(), DomainError>)
    ensures
        match members_fault(overlays@, class@, ids_view(selected@)) {
            None => r is Ok,
            Some(f) => r matches Err(e) && e@ == f,
        },
{
    let ghost sel = ids_view(selected@);
    let ghost os = overlays@;
    let n = selected.len();
    let mut i: usize = 0;
    while i < n
        invariant
            n == sel.len(),
            sel == ids_view(selected@),
            os == overlays@,
            0 <= i <= n,
            members_fault(os, class@, sel.subrange(0, i as int)) is None,
        decreases n - i,
    {
        let x = &selected[i];
        let ghost prior = sel.subrange(0, i as int);
        assert(sel.subrange(0, i + 1).drop_last() =~= prior);
        assert(sel.subrange(0, i + 1).last() == x@);
        let mut j: usize = 0;
        while j < i
            invariant
                n == sel.len(),
                sel == ids_view(selected@),
                0 <= j <= i < n,
                x@ == sel[i as int],
                prior == sel.subrange(0, i as int),
                os == overlays@,
                members_fault(os, class@, prior) is None,
                sel.subrange(0, i + 1).drop_last() == prior,
                sel.subrange(0, i + 1).last() == x@,
                forall|m: int| 0 <= m < j ==> prior[m] != x@,
            decreases i - j,
        {
            if selected[j] == *x {
                proof {
                    assert(prior[j as int] == x@);
                    assert(prior.contains(x@));
                    lemma_members_fault_prefix(os, class@, sel, i + 1);
                }
                return Err(DomainError::DuplicateProfileSelection(x.clone()));
            }
            j = j + 1;
        }
        assert(!prior.contains(x@));
        match find_overlay_in(overlays, x) {
            None => {
                proof {
                    lemma_members_fault_prefix(os, class@, sel, i + 1);
                }
                return Err(DomainError::UnknownOverlayReference(x.clone()));
            },
            Some(k) => {
                proof {
                    lemma_position_some(overlay_ids(os), x@);
                }
                if overlays[k].class != *class {
                    proof {
                        lemma_members_fault_prefix(os, class@, sel, i + 1);
                    }
                    return Err(DomainError::OverlayClassMismatch {
                        overlay: overlays[k].id.clone(),
                        expected: class.clone(),
                        actual: overlays[k].class.clone(),
                    });
                }
            },
        }
        i = i + 1;
    }
    assert(sel.subrange(0, n as int) =~= sel);
    Ok(())
}

/// Checks one selection entry of a profile.
fn check_entry(
    profile: &Identifier,
    classes: &Vec<OverlayClass>,
    overlays: &Vec<Overlay>,
    class: &Identifier,
    selected: &Vec<Identifier>,
) -> (r: Result<(), DomainError>)
    ensures
        match entry_fault(profile@, classes@, overlays@, (class@, ids_view(selected@))) {
            None => r is Ok,
            Some(f) => r matches Err(e) && e@ == f,
        },
{
    match find_class(classes, class) {
        None => Err(DomainError::UnknownProfileClass { profile: profile.clone(), class: class.clone() }),
        Some(c) => {
            proof {
                lemma_position_some(class_ids(classes@), class@);
            }
            let count = selected.len();
            if !classes[c].cardinality.accepts(count) {
                return Err(DomainError::CardinalityViolation {
                    profile: profile.clone(),
                    class: class.clone(),
                    count,
                });
            }
            check_members(overlays, class, selected)
        },
    }
}

/// Checks a profile's selection entries, in class-identifier order.
fn check_profile(p: &Profile, classes: &Vec<OverlayClass>, overlays: &Vec<Overlay>) -> (r: Result<(), DomainError>)
    ensures
        match profile_fault(*p, classes@, overlays@) {
            None => r is Ok,
            Some(f) => r matches Err(e) && e@ == f,
        },
{
    let ghost es = p.selections@;
    let n = p.selections.len();
    let mut i: usize = 0;
    while i < n
        invariant
            n == es.len(),
            es == p.selections@,
            0 <= i <= n,
            entries_fault(p.id@, classes@, overlays@, es.subrange(0, i as int)) is None,
        decreases n - i,
    {
        assert(es.subrange(0, i + 1).drop_last() =~= es.subrange(0, i as int));
        let class = p.selections.class_at(i);
        let selected = p.selections.selection_at(i);
        assert(es.subrange(0, i + 1).last() == (class@, ids_view(selected@)));
        let r = check_entry(&p.id, classes, overlays, class, selected);
        if r.is_err() {
            proof {
                lemma_entries_fault_prefix(p.id@, classes@, overlays@, es, i + 1);
            }
            return r;
        }
        i = i + 1;
    }
    assert(es.subrange(0, n as int) =~= es);
    check_omitted(p, classes)
}

proof fn lemma_omitted_fault_prefix(profile: Seq<char>, cs: Seq<OverlayClass>, sels: Seq<(Seq<char>, Seq<Seq<char>>)>, k: int)
    requires
        0 <= k <= cs.len(),
        omitted_fault(profile, cs.subrange(0, k), sels) is Some,
    ensures
        omitted_fault(profile, cs, sels) == omitted_fault(profile, cs.subrange(0, k), sels),
    decreases cs.len() - k,
{
    if k < cs.len() {
        assert(cs.subrange(0, k + 1).drop_last() =~= cs.subrange(0, k));
        lemma_omitted_fault_prefix(profile, cs, sels, k + 1);
    } else {
        assert(cs.subrange(0, k) =~= cs);
    }
}

/// Checks that a profile leaves out no class whose cardinality asks for a selection.
fn check_omitted(p: &Profile, classes: &Vec<OverlayClass>) -> (r: Result<(), DomainError>)
    ensures
        match omitted_fault(p.id@, classes@, p.selections@) {
            None => r is Ok,
            Some(f) => r matches Err(e) && e@ == f,
        },
{
    let ghost cs = classes@;
    let n = classes.len();
    let mut i: usize = 0;
    while i < n
        invariant
            n == cs.len(),
            cs == classes@,
            0 <= i <= n,
            omitted_fault(p.id@, cs.subrange(0, i as int), p.selections@) is None,
        decreases n - i,
    {
        assert(cs.subrange(0, i + 1).drop_last() =~= cs.subrange(0, i as int));
        assert(cs.subrange(0, i + 1).last() == cs[i as int]);
        let c = &classes[i];
        if p.selections.get(&c.id).is_none() && !c.cardinality.accepts(0) {
            proof {
                lemma_omitted_fault_prefix(p.id@, cs, p.selections@, i + 1);
            }
            return Err(DomainError::CardinalityViolation { profile: p.id.clone(), class: c.id.clone(), count: 0 });
        }
        i = i + 1;
    }
    assert(cs.subrange(0, n as int) =~= cs);
    Ok(())
}

/// Checks every profile, in the given order.
fn check_profiles(profiles: &Vec<Profile>, classes: &Vec<OverlayClass>, overlays: &Vec<Overlay>) -> (r: Result<(), DomainError>)
    ensures
        match profiles_fault(profiles@, classes@, overlays@) {
            None => r is Ok,
            Some(f) => r matches Err(e) && e@ == f,
        },
{
    let ghost ps = profiles@;
    let n = profiles.len();
    let mut i: usize = 0;
    while i < n
        invariant
            n == ps.len(),
            ps == profiles@,
            0 <= i <= n,
            profiles_fault(ps.subrange(0, i as int), classes@, overlays@) is None,
        decreases n - i,
    {
        assert(ps.subrange(0, i + 1).drop_last() =~= ps.subrange(0, i as int));
        assert(ps.subrange(0, i + 1).last() == ps[i as int]);
        let r = check_profile(&profiles[i], classes, overlays);
        if r.is_err() {
            proof {
                lemma_profiles_fault_prefix(ps, classes@, overlays@, i + 1);
            }
            return r;
        }
        i = i + 1;
    }
    assert(ps.subrange(0, n as int) =~= ps);
    Ok(())
}

/// Once a prefix holds a repeat, every longer prefix reports the same one.
proof fn lemma_first_repeat_prefix(s: Seq<Seq<char>>, k: int)
    requires
        0 <= k <= s.len(),
        first_repeat(s.subrange(0, k)) is Some,
    ensures
        first_repeat(s) == first_repeat(s.subrange(0, k)),
    decreases s.len() - k,
{
    if k < s.len() {
        assert(s.subrange(0, k + 1).drop_last() =~= s.subrange(0, k));
        lemma_first_repeat_prefix(s, k + 1);
    } else {
        assert(s.subrange(0, k) =~= s);
    }
}

/// A declaration named by an identifier: overlays, profiles, and variables.
pub trait Declared {
    /// The text of the declaration's identifier.
    spec fn key(&self) -> Seq<char>;

    /// The declaration's identifier.
    fn identifier(&self) -> (r: &Identifier)
        ensures
            r@ == self.key(),
    ;
}

impl Declared for Overlay {
    open spec fn key(&self) -> Seq<char> {
        self.id@
    }

    fn identifier(&self) -> (r: &Identifier) {
        &self.id
    }
}

impl Declared for Profile {
    open spec fn key(&self) -> Seq<char> {
        self.id@
    }

    fn identifier(&self) -> (r: &Identifier) {
        &self.id
    }
}

impl Declared for Variable {
    open spec fn key(&self) -> Seq<char> {
        self.name@
    }

    fn identifier(&self) -> (r: &Identifier) {
        &self.name
    }
}

/// The identifier texts of declarations.
pub open spec fn keys<T: Declared>(s: Seq<T>) -> Seq<Seq<char>> {
    s.map_values(|x: T| x.key())
}

/// Declarations in strictly increasing identifier order.
pub open spec fn keys_increasing<T: Declared>(s: Seq<T>) -> bool {
    strictly_sorted(keys(s))
}

/// Identifier order fixes a listing: two listings of the same declarations,
/// each in strictly increasing identifier order, are one listing.
pub proof fn lemma_identifier_order_ignores_declaration_order<T: Declared>(a: Seq<T>, b: Seq<T>)
    requires
        a.to_multiset() == b.to_multiset(),
        keys_increasing(a),
        keys_increasing(b),
    ensures
        a == b,
    decreases a.len(),
{
    broadcast use vstd::seq_lib::group_to_multiset_ensures;

    assert(a.to_multiset().len() == a.len());
    assert(b.to_multiset().len() == b.len());
    if a.len() == 0 {
        assert(a =~= b);
    } else {
        assert(a.to_multiset().count(a[0]) > 0);
        assert(b.contains(a[0]));
        let j = choose|j: int| 0 <= j < b.len() && b[j] == a[0];
        assert(b.to_multiset().count(b[0]) > 0);
        assert(a.contains(b[0]));
        let i = choose|i: int| 0 <= i < a.len() && a[i] == b[0];
        assert(keys(a)[0] == a[0].key() && keys(a)[i] == a[i].key());
        assert(keys(b)[0] == b[0].key() && keys(b)[j] == b[j].key());
        if i != 0 {
            assert(seq_lt(keys(a)[0], keys(a)[i]));
            if j != 0 {
                assert(seq_lt(keys(b)[0], keys(b)[j]));
                lemma_seq_lt_asymmetric(a[0].key(), b[0].key());
            } else {
                lemma_seq_lt_irreflexive(a[0].key());
            }
        } else if j != 0 {
            assert(seq_lt(keys(b)[0], keys(b)[j]));
            lemma_seq_lt_irreflexive(a[0].key());
        }
        assert(a[0] == b[0]);
        assert(a.remove(0) =~= a.drop_first());
        assert(b.remove(0) =~= b.drop_first());
        assert(a.drop_first().to_multiset() == a.to_multiset().remove(a[0]));
        assert(b.drop_first().to_multiset() == b.to_multiset().remove(b[0]));
        assert(keys(a.drop_first()) =~= keys(a).drop_first());
        assert(keys(b.drop_first()) =~= keys(b).drop_first());
        lemma_identifier_order_ignores_declaration_order(a.drop_first(), b.drop_first());
        assert forall|k: int| 0 <= k < a.len() implies a[k] == b[k] by {
            if k > 0 {
                assert(a[k] == a.drop_first()[k - 1]);
                assert(b[k] == b.drop_first()[k - 1]);
            }
        }
        assert(a =~= b);
    }
}

/// Identifiers that do not repeat still do not repeat when the declarations
/// are listed in another order.
proof fn lemma_keys_distinct_after_reordering<T: Declared>(a: Seq<T>, b: Seq<T>)
    requires
        keys(a).no_duplicates(),
        a.to_multiset() == b.to_multiset(),
    ensures
        keys(b).no_duplicates(),
{
    broadcast use vstd::seq_lib::group_to_multiset_ensures;

    assert(a.no_duplicates()) by {
        assert forall|i: int, j: int| 0 <= i < a.len() && 0 <= j < a.len() && i != j implies a[i] != a[j] by {
            assert(keys(a)[i] != keys(a)[j]);
        }
    }
    a.lemma_multiset_has_no_duplicates();
    b.lemma_multiset_has_no_duplicates_conv();
    assert forall|i: int, j: int| 0 <= i < b.len() && 0 <= j < b.len() && i != j implies keys(b)[i] != keys(b)[j] by {
        assert(b.to_multiset().count(b[i]) > 0);
        assert(b.to_multiset().count(b[j]) > 0);
        assert(a.contains(b[i]));
        assert(a.contains(b[j]));
        let x = choose|x: int| 0 <= x < a.len() && a[x] == b[i];
        let y = choose|y: int| 0 <= y < a.len() && a[y] == b[j];
        assert(b[i] != b[j]);
        assert(keys(a)[x] != keys(a)[y]);
    }
}

/// Orders declarations by their distinct identifiers.
fn sort_by_key<T: Declared>(items: Vec<T>) -> (r: Vec<T>)
    requires
        keys(items@).no_duplicates(),
    ensures
        r@.to_multiset() == items@.to_multiset(),
        keys_increasing(r@),
{
    broadcast use vstd::seq_lib::group_to_multiset_ensures;

    let ghost input = items@;
    let mut rest = items;
    let mut out: Vec<T> = Vec::new();
    assert(keys(out@) =~= Seq::<Seq<char>>::empty());
    assert forall|a: int, b: int| 0 <= a < b < rest@.len() implies rest@[a].key() != rest@[b].key() by {
        assert(keys(input)[a] != keys(input)[b]);
    }
    while rest.len() > 0
        invariant
            keys_increasing(out@),
            out@.to_multiset().add(rest@.to_multiset()) == input.to_multiset(),
            forall|a: int, b: int| 0 <= a < b < rest@.len() ==> rest@[a].key() != rest@[b].key(),
            forall|a: int, b: int| 0 <= a < out@.len() && 0 <= b < rest@.len() ==> out@[a].key() != rest@[b].key(),
        decreases rest.len(),
    {
        let ghost before = rest@;
        let x = rest.pop().unwrap();
        assert(before == rest@.push(x));
        let ghost xk = x.key();
        let n = out.len();
        let mut k: usize = 0;
        while k < n && str_lt(out[k].identifier().as_str(), x.identifier().as_str())
            invariant
                n == out@.len(),
                0 <= k <= n,
                xk == x.key(),
                forall|a: int| 0 <= a < k ==> seq_lt(#[trigger] out@[a].key(), xk),
            decreases n - k,
        {
            k = k + 1;
        }
        let ghost old_out = out@;
        proof {
            assert forall|a: int| 0 <= a < old_out.len() implies old_out[a].key() != xk by {
                assert(before[before.len() - 1] == x);
            }
            if k < n {
                lemma_seq_lt_total(old_out[k as int].key(), xk);
            }
            assert forall|a: int| k <= a < n implies seq_lt(xk, #[trigger] old_out[a].key()) by {
                if a > k {
                    assert(keys(old_out)[k as int] == old_out[k as int].key());
                    assert(keys(old_out)[a] == old_out[a].key());
                    assert(seq_lt(keys(old_out)[k as int], keys(old_out)[a]));
                    lemma_seq_lt_transitive(xk, old_out[k as int].key(), old_out[a].key());
                }
            }
        }
        out.insert(k, x);
        proof {
            assert(out@ == old_out.insert(k as int, x));
            assert forall|a: int, b: int| 0 <= a < b < out@.len() implies seq_lt(#[trigger] keys(out@)[a], #[trigger] keys(out@)[b]) by {
                assert(keys(out@)[a] == out@[a].key());
                assert(keys(out@)[b] == out@[b].key());
                if b < k {
                    assert(seq_lt(keys(old_out)[a], keys(old_out)[b]));
                } else if a < k && b == k {
                } else if a < k && b > k {
                    assert(out@[b] == old_out[b - 1]);
                    lemma_seq_lt_transitive(old_out[a].key(), xk, old_out[b - 1].key());
                } else if a == k {
                    assert(out@[b] == old_out[b - 1]);
                } else {
                    assert(out@[a] == old_out[a - 1]);
                    assert(out@[b] == old_out[b - 1]);
                    assert(seq_lt(keys(old_out)[a - 1], keys(old_out)[b - 1]));
                }
            }
            assert forall|a: int, b: int| 0 <= a < out@.len() && 0 <= b < rest@.len() implies out@[a].key()
                != rest@[b].key() by {
                assert(rest@[b] == before[b]);
                if a < k {
                    assert(old_out[a].key() != before[b].key());
                } else if a == k {
                    assert(before[before.len() - 1] == x);
                } else {
                    assert(old_out[a - 1].key() != before[b].key());
                }
            }
            vstd::seq_lib::to_multiset_insert(old_out, k as int, x);
            vstd::seq_lib::to_multiset_build(rest@, x);
            assert(out@.to_multiset() == old_out.to_multiset().insert(x));
            assert(before.to_multiset() == rest@.to_multiset().insert(x));
            assert(out@.to_multiset().add(rest@.to_multiset()) =~= old_out.to_multiset().add(before.to_multiset()));
        }
    }
    assert(rest@.to_multiset() =~= vstd::multiset::Multiset::empty());
    assert(out@.to_multiset().add(rest@.to_multiset()) =~= out@.to_multiset());
    out
}

/// Classes in strictly increasing order.
pub open spec fn orders_increasing(cs: Seq<OverlayClass>) -> bool {
    forall|i: int, j: int| 0 <= i < j < cs.len() ==> (#[trigger] cs[i]).order < (#[trigger] cs[j]).order
}

/// Class precedence depends only on the declared orders, never on the order
/// of declaration: two listings of the same class declarations, each in
/// strictly increasing order, are one listing. So `OverlayPack::new` lists
/// the classes of any reordering of its input identically.
pub proof fn lemma_class_order_ignores_declaration_order(a: Seq<OverlayClass>, b: Seq<OverlayClass>)
    requires
        a.to_multiset() == b.to_multiset(),
        orders_increasing(a),
        orders_increasing(b),
    ensures
        a == b,
    decreases a.len(),
{
    broadcast use vstd::seq_lib::group_to_multiset_ensures;

    assert(a.to_multiset().len() == a.len());
    assert(b.to_multiset().len() == b.len());
    if a.len() == 0 {
        assert(a =~= b);
    } else {
        assert(a.to_multiset().count(a[0]) > 0);
        assert(b.contains(a[0]));
        let j = choose|j: int| 0 <= j < b.len() && b[j] == a[0];
        assert(b.to_multiset().count(b[0]) > 0);
        assert(a.contains(b[0]));
        let i = choose|i: int| 0 <= i < a.len() && a[i] == b[0];
        if i != 0 {
            assert(a[0].order < a[i].order);
            if j != 0 {
                assert(b[0].order < b[j].order);
            }
        }
        assert(a[0] == b[0]);
        assert(a.remove(0) =~= a.drop_first());
        assert(b.remove(0) =~= b.drop_first());
        assert(a.drop_first().to_multiset() == a.to_multiset().remove(a[0]));
        assert(b.drop_first().to_multiset() == b.to_multiset().remove(b[0]));
        assert forall|x: int, y: int| 0 <= x < y < a.drop_first().len() implies (#[trigger] a.drop_first()[x]).order
            < (#[trigger] a.drop_first()[y]).order by {
            assert(a[x + 1].order < a[y + 1].order);
        }
        assert forall|x: int, y: int| 0 <= x < y < b.drop_first().len() implies (#[trigger] b.drop_first()[x]).order
            < (#[trigger] b.drop_first()[y]).order by {
            assert(b[x + 1].order < b[y + 1].order);
        }
        lemma_class_order_ignores_declaration_order(a.drop_first(), b.drop_first());
        assert forall|k: int| 0 <= k < a.len() implies a[k] == b[k] by {
            if k > 0 {
                assert(a[k] == a.drop_first()[k - 1]);
                assert(b[k] == b.drop_first()[k - 1]);
            }
        }
        assert(a =~= b);
    }
}

/// Orders classes by their distinct orders.
fn sort_classes(classes: Vec<OverlayClass>) -> (r: Vec<OverlayClass>)
    requires
        least_duplicated_order(classes@) is None,
    ensures
        r@.to_multiset() == classes@.to_multiset(),
        orders_increasing(r@),
{
    broadcast use vstd::seq_lib::group_to_multiset_ensures;

    let ghost input = classes@;
    assert forall|a: int, b: int| 0 <= a < b < input.len() implies input[a].order != input[b].order by {
        if input[a].order == input[b].order {
            assert(duplicated_order(input, input[a].order));
        }
    }
    let mut rest = classes;
    let mut out: Vec<OverlayClass> = Vec::new();
    while rest.len() > 0
        invariant
            orders_increasing(out@),
            out@.to_multiset().add(rest@.to_multiset()) == input.to_multiset(),
            forall|a: int, b: int| 0 <= a < b < rest@.len() ==> rest@[a].order != rest@[b].order,
            forall|a: int, b: int|
                0 <= a < out@.len() && 0 <= b < rest@.len() ==> out@[a].order != rest@[b].order,
        decreases rest.len(),
    {
        let ghost before = rest@;
        let x = rest.pop().unwrap();
        assert(before == rest@.push(x));
        let n = out.len();
        let mut k: usize = 0;
        while k < n && out[k].order < x.order
            invariant
                n == out@.len(),
                0 <= k <= n,
                forall|a: int| 0 <= a < k ==> out@[a].order < x.order,
            decreases n - k,
        {
            k = k + 1;
        }
        let ghost old_out = out@;
        proof {
            assert forall|a: int| 0 <= a < old_out.len() implies old_out[a].order != x.order by {
                assert(before[before.len() - 1] == x);
            }
            assert forall|a: int| k <= a < n implies x.order < #[trigger] old_out[a].order by {
                if a > k {
                    assert(old_out[k as int].order < old_out[a].order);
                }
            }
        }
        out.insert(k, x);
        proof {
            assert(out@ == old_out.insert(k as int, x));
            assert forall|a: int, b: int| 0 <= a < b < out@.len() implies (#[trigger] out@[a]).order < (
            #[trigger] out@[b]).order by {
                if b < k {
                    assert(old_out[a].order < old_out[b].order);
                } else if a < k && b == k {
                } else if a < k && b > k {
                    assert(old_out[a].order < old_out[b - 1].order);
                } else if a == k {
                } else {
                    assert(old_out[a - 1].order < old_out[b - 1].order);
                }
            }
            assert forall|a: int, b: int| 0 <= a < out@.len() && 0 <= b < rest@.len() implies out@[a].order
                != rest@[b].order by {
                assert(rest@[b] == before[b]);
                if a < k {
                    assert(old_out[a].order != before[b].order);
                } else if a == k {
                    assert(before[before.len() - 1] == x);
                } else {
                    assert(old_out[a - 1].order != before[b].order);
                }
            }
            vstd::seq_lib::to_multiset_insert(old_out, k as int, x);
            vstd::seq_lib::to_multiset_build(rest@, x);
            assert(out@.to_multiset() == old_out.to_multiset().insert(x));
            assert(before.to_multiset() == rest@.to_multiset().insert(x));
            assert(out@.to_multiset().add(rest@.to_multiset()) =~= old_out.to_multiset().add(before.to_multiset()));
        }
    }
    assert(rest@.to_multiset() =~= vstd::multiset::Multiset::empty());
    assert(out@.to_multiset().add(rest@.to_multiset()) =~= out@.to_multiset());
    out
}

fn class_id_refs<'a>(classes: &'a Vec<OverlayClass>) -> (r: Vec<&'a Identifier>)
    ensures
        r@.map_values(|x: &Identifier| x@) == class_ids(classes@),
{
    let mut r: Vec<&Identifier> = Vec::new();
    let mut i: usize = 0;
    while i < classes.len()
        invariant
            0 <= i <= classes@.len(),
            r@.len() == i,
            r@.map_values(|x: &Identifier| x@) == class_ids(classes@.subrange(0, i as int)),
        decreases classes@.len() - i,
    {
        let ghost before = r@;
        r.push(&classes[i].id);
        proof {
            let a = r@.map_values(|x: &Identifier| x@);
            let b = class_ids(classes@.subrange(0, i + 1));
            assert(before.map_values(|x: &Identifier| x@) == class_ids(classes@.subrange(0, i as int)));
            assert forall|k: int| 0 <= k < a.len() implies a[k] == b[k] by {
                assert(a[k] == r@[k]@);
                assert(b[k] == classes@.subrange(0, i + 1)[k].id@);
                assert(classes@.subrange(0, i + 1)[k] == classes@[k]);
                if k < i {
                    assert(r@[k] == before[k]);
                    assert(before.map_values(|x: &Identifier| x@)[k] == before[k]@);
                    assert(classes@.subrange(0, i as int)[k] == classes@[k]);
                }
            }
            assert(a =~= b);
        }
        i = i + 1;
    }
    assert(classes@.subrange(0, i as int) =~= classes@);
    r
}

/// Reports the first repeated class identifier.
fn check_unique_classes(classes: &Vec<OverlayClass>) -> (r: Result<(), DomainError>)
    ensures
        match first_repeat(class_ids(classes@)) {
            None => r is Ok,
            Some(j) => r matches Err(e) && e@ == DomainFault::DuplicateIdentifier {
                kind: "class"@,
                identifier: class_ids(classes@)[j],
            },
        },
{
    let ids = class_id_refs(classes);
    ensure_unique(&ids, "class")
}

fn overlay_id_refs<'a>(overlays: &'a Vec<Overlay>) -> (r: Vec<&'a Identifier>)
    ensures
        r@.map_values(|x: &Identifier| x@) == overlay_ids(overlays@),
{
    let mut r: Vec<&Identifier> = Vec::new();
    let mut i: usize = 0;
    while i < overlays.len()
        invariant
            0 <= i <= overlays@.len(),
            r@.len() == i,
            r@.map_values(|x: &Identifier| x@) == overlay_ids(overlays@.subrange(0, i as int)),
        decreases overlays@.len() - i,
    {
        let ghost before = r@;
        r.push(&overlays[i].id);
        proof {
            let a = r@.map_values(|x: &Identifier| x@);
            let b = overlay_ids(overlays@.subrange(0, i + 1));
            assert(before.map_values(|x: &Identifier| x@) == overlay_ids(overlays@.subrange(0, i as int)));
            assert forall|k: int| 0 <= k < a.len() implies a[k] == b[k] by {
                assert(a[k] == r@[k]@);
                assert(b[k] == overlays@.subrange(0, i + 1)[k].id@);
                assert(overlays@.subrange(0, i + 1)[k] == overlays@[k]);
                if k < i {
                    assert(r@[k] == before[k]);
                    assert(before.map_values(|x: &Identifier| x@)[k] == before[k]@);
                    assert(overlays@.subrange(0, i as int)[k] == overlays@[k]);
                }
            }
            assert(a =~= b);
        }
        i = i + 1;
    }
    assert(overlays@.subrange(0, i as int) =~= overlays@);
    r
}

/// Reports the first repeated overlay identifier.
fn check_unique_overlays(overlays: &Vec<Overlay>) -> (r: Result<(), DomainError>)
    ensures
        match first_repeat(overlay_ids(overlays@)) {
            None => r is Ok,
            Some(j) => r matches Err(e) && e@ == DomainFault::DuplicateIdentifier {
                kind: "overlay"@,
                identifier: overlay_ids(overlays@)[j],
            },
        },
{
    let ids = overlay_id_refs(overlays);
    ensure_unique(&ids, "overlay")
}

fn profile_id_refs<'a>(profiles: &'a Vec<Profile>) -> (r: Vec<&'a Identifier>)
    ensures
        r@.map_values(|x: &Identifier| x@) == profile_ids(profiles@),
{
    let mut r: Vec<&Identifier> = Vec::new();
    let mut i: usize = 0;
    while i < profiles.len()
        invariant
            0 <= i <= profiles@.len(),
            r@.len() == i,
            r@.map_values(|x: &Identifier| x@) == profile_ids(profiles@.subrange(0, i as int)),
        decreases profiles@.len() - i,
    {
        let ghost before = r@;
        r.push(&profiles[i].id);
        proof {
            let a = r@.map_values(|x: &Identifier| x@);
            let b = profile_ids(profiles@.subrange(0, i + 1));
            assert(before.map_values(|x: &Identifier| x@) == profile_ids(profiles@.subrange(0, i as int)));
            assert forall|k: int| 0 <= k < a.len() implies a[k] == b[k] by {
                assert(a[k] == r@[k]@);
                assert(b[k] == profiles@.subrange(0, i + 1)[k].id@);
                assert(profiles@.subrange(0, i + 1)[k] == profiles@[k]);
                if k < i {
                    assert(r@[k] == before[k]);
                    assert(before.map_values(|x: &Identifier| x@)[k] == before[k]@);
                    assert(profiles@.subrange(0, i as int)[k] == profiles@[k]);
                }
            }
            assert(a =~= b);
        }
        i = i + 1;
    }
    assert(profiles@.subrange(0, i as int) =~= profiles@);
    r
}

/// Reports the first repeated profile identifier.
fn check_unique_profiles(profiles: &Vec<Profile>) -> (r: Result<(), DomainError>)
    ensures
        match first_repeat(profile_ids(profiles@)) {
            None => r is Ok,
            Some(j) => r matches Err(e) && e@ == DomainFault::DuplicateIdentifier {
                kind: "profile"@,
                identifier: profile_ids(profiles@)[j],
            },
        },
{
    let ids = profile_id_refs(profiles);
    ensure_unique(&ids, "profile")
}

fn variable_name_refs<'a>(variables: &'a Vec<Variable>) -> (r: Vec<&'a Identifier>)
    ensures
        r@.map_values(|x: &Identifier| x@) == variable_names(variables@),
{
    let mut r: Vec<&Identifier> = Vec::new();
    let mut i: usize = 0;
    while i < variables.len()
        invariant
            0 <= i <= variables@.len(),
            r@.len() == i,
            r@.map_values(|x: &Identifier| x@) == variable_names(variables@.subrange(0, i as int)),
        decreases variables@.len() - i,
    {
        let ghost before = r@;
        r.push(&variables[i].name);
        proof {
            let a = r@.map_values(|x: &Identifier| x@);
            let b = variable_names(variables@.subrange(0, i + 1));
            assert(before.map_values(|x: &Identifier| x@) == variable_names(variables@.subrange(0, i as int)));
            assert forall|k: int| 0 <= k < a.len() implies a[k] == b[k] by {
                assert(a[k] == r@[k]@);
                assert(b[k] == variables@.subrange(0, i + 1)[k].name@);
                assert(variables@.subrange(0, i + 1)[k] == variables@[k]);
                if k < i {
                    assert(r@[k] == before[k]);
                    assert(before.map_values(|x: &Identifier| x@)[k] == before[k]@);
                    assert(variables@.subrange(0, i as int)[k] == variables@[k]);
                }
            }
            assert(a =~= b);
        }
        i = i + 1;
    }
    assert(variables@.subrange(0, i as int) =~= variables@);
    r
}

/// Reports the first repeated variable identifier.
fn check_unique_variables(variables: &Vec<Variable>) -> (r: Result<(), DomainError>)
    ensures
        match first_repeat(variable_names(variables@)) {
            None => r is Ok,
            Some(j) => r matches Err(e) && e@ == DomainFault::DuplicateIdentifier {
                kind: "variable"@,
                identifier: variable_names(variables@)[j],
            },
        },
{
    let ids = variable_name_refs(variables);
    ensure_unique(&ids, "variable")
}

/// Checks the schema family and the rules of `declarations_fault`, in order.
fn check_declarations(
    schema_family: &str,
    classes: &Vec<OverlayClass>,
    overlays: &Vec<Overlay>,
    profiles: &Vec<Profile>,
    variables: &Vec<Variable>,
) -> (r: Result<(), DomainError>)
    ensures
        schema_family@.len() == 0 ==> (r matches Err(e) && e@ == DomainFault::EmptySchemaFamily),
        schema_family@.len() > 0 ==> match declarations_fault(classes@, overlays@, profiles@, variables@) {
            None => r is Ok,
            Some(f) => r matches Err(e) && e@ == f,
        },
{
    if schema_family.is_empty() {
        return Err(DomainError::EmptySchemaFamily);
    }
    let r = check_unique_classes(classes);
    if r.is_err() {
        return r;
    }
    let r = check_unique_overlays(overlays);
    if r.is_err() {
        return r;
    }
    let r = check_unique_profiles(profiles);
    if r.is_err() {
        return r;
    }
    let r = check_unique_variables(variables);
    if r.is_err() {
        return r;
    }
    match find_duplicated_order(classes) {
        Some(o) => Err(DomainError::DuplicateClassOrder(o)),
        None => Ok(()),
    }
}

/// The parts of a validated pack: they break no rule of `parts_fault`, and
/// they are listed in normalized order (`parts_normalized`).
#[derive(Debug)]
struct PackParts {
    classes: Vec<OverlayClass>,
    overlays: Vec<Overlay>,
    profiles: Vec<Profile>,
    variables: Vec<Variable>,
}

impl PackParts {
    #[verifier::type_invariant]
    closed spec fn inv(self) -> bool {
        &&& parts_fault(self.classes@, self.overlays@, self.profiles@, self.variables@) is None
        &&& parts_normalized(self.classes@, self.overlays@, self.profiles@, self.variables@)
    }
}

/// A validated overlay pack: unique declarations, classes in strictly
/// increasing order, and profiles whose selections respect the declared
/// classes, overlays, and cardinalities.
#[derive(Debug)]
pub struct OverlayPack {
    pub id: Identifier,
    pub schema_family: String,
    parts: PackParts,
}

/// `first_repeat` finds nothing exactly when no element repeats.
proof fn lemma_first_repeat_none(s: Seq<Seq<char>>)
    ensures
        first_repeat(s) is None <==> s.no_duplicates(),
    decreases s.len(),
{
    if s.len() > 0 {
        let d = s.drop_last();
        lemma_first_repeat_none(d);
        if s.no_duplicates() {
            assert(d.no_duplicates()) by {
                assert forall|i: int, j: int| 0 <= i < d.len() && 0 <= j < d.len() && i != j implies d[i] != d[j] by {
                    assert(s[i] != s[j]);
                }
            }
            if d.contains(s.last()) {
                let q = choose|q: int| 0 <= q < d.len() && d[q] == s.last();
                assert(s[q] == s[s.len() - 1]);
            }
        }
        if first_repeat(s) is None {
            assert forall|i: int, j: int| 0 <= i < s.len() && 0 <= j < s.len() && i != j implies s[i] != s[j] by {
                if i < s.len() - 1 && j < s.len() - 1 {
                    assert(d[i] != d[j]);
                } else if i == s.len() - 1 {
                    assert(d[j] == s[j]);
                } else {
                    assert(d[i] == s[i]);
                }
            }
        }
    }
}

/// Class identifiers that do not repeat still do not repeat when the classes
/// are listed in another order.
proof fn lemma_class_ids_distinct_after_reordering(cs: Seq<OverlayClass>, other: Seq<OverlayClass>)
    requires
        class_ids(cs).no_duplicates(),
        cs.to_multiset() == other.to_multiset(),
    ensures
        class_ids(other).no_duplicates(),
{
    broadcast use vstd::seq_lib::group_to_multiset_ensures;

    assert(cs.no_duplicates()) by {
        assert forall|i: int, j: int| 0 <= i < cs.len() && 0 <= j < cs.len() && i != j implies cs[i] != cs[j] by {
            assert(class_ids(cs)[i] != class_ids(cs)[j]);
        }
    }
    cs.lemma_multiset_has_no_duplicates();
    other.lemma_multiset_has_no_duplicates_conv();
    assert forall|i: int, j: int| 0 <= i < other.len() && 0 <= j < other.len() && i != j implies class_ids(other)[i]
        != class_ids(other)[j] by {
        assert(other.to_multiset().count(other[i]) > 0);
        assert(other.to_multiset().count(other[j]) > 0);
        assert(cs.contains(other[i]));
        assert(cs.contains(other[j]));
        let a = choose|a: int| 0 <= a < cs.len() && cs[a] == other[i];
        let b = choose|b: int| 0 <= b < cs.len() && cs[b] == other[j];
        assert(other[i] != other[j]);
        assert(class_ids(cs)[a] != class_ids(cs)[b]);
    }
}

/// Classes in strictly increasing order share no order.
proof fn lemma_increasing_orders_distinct(cs: Seq<OverlayClass>)
    requires
        orders_increasing(cs),
    ensures
        least_duplicated_order(cs) is None,
{
    if exists|o: u32| duplicated_order(cs, o) {
        let o = choose|o: u32| duplicated_order(cs, o);
        let (a, b) = choose|a: int, b: int| 0 <= a < b < cs.len() && cs[a].order == o && cs[b].order == o;
        assert(cs[a].order < cs[b].order);
    }
}

/// A listing of the classes in strictly increasing order is `sorted_classes`.
proof fn lemma_sorted_classes_is(cs: Seq<OverlayClass>, s: Seq<OverlayClass>)
    requires
        s.to_multiset() == cs.to_multiset(),
        orders_increasing(s),
    ensures
        sorted_classes(cs) == s,
{
    let c = sorted_classes(cs);
    assert(c.to_multiset() == cs.to_multiset() && orders_increasing(c));
    lemma_class_order_ignores_declaration_order(c, s);
}

impl OverlayPack {
    /// The pack identifier.
    pub closed spec fn spec_id(&self) -> Identifier {
        self.id
    }

    /// The schema family text.
    pub closed spec fn spec_schema_family(&self) -> Seq<char> {
        self.schema_family@
    }

    /// The classes, in increasing order.
    pub closed spec fn spec_classes(&self) -> Seq<OverlayClass> {
        self.parts.classes@
    }

    /// The overlays, in identifier order.
    pub closed spec fn spec_overlays(&self) -> Seq<Overlay> {
        self.parts.overlays@
    }

    /// The profiles, in identifier order.
    pub closed spec fn spec_profiles(&self) -> Seq<Profile> {
        self.parts.profiles@
    }

    /// The variables, in identifier order.
    pub closed spec fn spec_variables(&self) -> Seq<Variable> {
        self.parts.variables@
    }

    /// Builds a pack from its declarations, reporting the first broken rule
    /// (see `pack_fault`). On success the parts are normalized: classes by
    /// `order`; overlays, profiles, and variables by identifier.
    pub fn new(
        id: Identifier,
        schema_family: &str,
        classes: Vec<OverlayClass>,
        overlays: Vec<Overlay>,
        profiles: Vec<Profile>,
        variables: Vec<Variable>,
    ) -> (r: Result<Self, DomainError>)
        ensures
            match r {
                Ok(p) => {
                    &&& pack_fault(schema_family@, classes@, overlays@, profiles@, variables@) is None
                    &&& p.spec_id() == id
                    &&& p.spec_schema_family() == schema_family@
                    &&& p.spec_classes().to_multiset() == classes@.to_multiset()
                    &&& p.spec_overlays().to_multiset() == overlays@.to_multiset()
                    &&& p.spec_profiles().to_multiset() == profiles@.to_multiset()
                    &&& p.spec_variables().to_multiset() == variables@.to_multiset()
                    &&& parts_normalized(p.spec_classes(), p.spec_overlays(), p.spec_profiles(), p.spec_variables())
                    &&& parts_fault(p.spec_classes(), p.spec_overlays(), p.spec_profiles(), p.spec_variables()) is None
                },
                Err(e) => pack_fault(schema_family@, classes@, overlays@, profiles@, variables@)
                    == Some(e@),
            },
    {
        let r = check_declarations(schema_family, &classes, &overlays, &profiles, &variables);
        if r.is_err() {
            return Err(r.unwrap_err());
        }
        let ghost ic = classes@;
        let ghost io = overlays@;
        let ghost ip = profiles@;
        let ghost iv = variables@;
        proof {
            lemma_first_repeat_none(overlay_ids(io));
            lemma_first_repeat_none(profile_ids(ip));
            lemma_first_repeat_none(variable_names(iv));
            assert(keys(io) =~= overlay_ids(io));
            assert(keys(ip) =~= profile_ids(ip));
            assert(keys(iv) =~= variable_names(iv));
        }
        let classes = sort_classes(classes);
        proof {
            lemma_sorted_classes_is(ic, classes@);
        }
        let r = check_overlays(&classes, &overlays);
        if r.is_err() {
            return Err(r.unwrap_err());
        }
        let r = check_profiles(&profiles, &classes, &overlays);
        if r.is_err() {
            return Err(r.unwrap_err());
        }
        let overlays = sort_by_key(overlays);
        let profiles = sort_by_key(profiles);
        let variables = sort_by_key(variables);
        proof {
            lemma_first_repeat_none(class_ids(ic));
            lemma_class_ids_distinct_after_reordering(ic, classes@);
            lemma_first_repeat_none(class_ids(classes@));
            lemma_keys_distinct_after_reordering(io, overlays@);
            lemma_keys_distinct_after_reordering(ip, profiles@);
            lemma_keys_distinct_after_reordering(iv, variables@);
            assert(keys(overlays@) =~= overlay_ids(overlays@));
            assert(keys(profiles@) =~= profile_ids(profiles@));
            assert(keys(variables@) =~= variable_names(variables@));
            lemma_first_repeat_none(overlay_ids(overlays@));
            lemma_first_repeat_none(profile_ids(profiles@));
            lemma_first_repeat_none(variable_names(variables@));
            lemma_increasing_orders_distinct(classes@);
            lemma_sorted_classes_is(classes@, classes@);
            lemma_arrangement_reordered(classes@, io, ip, overlays@, profiles@);
        }
        let parts = PackParts { classes, overlays, profiles, variables };
        Ok(OverlayPack { id, schema_family: schema_family.to_owned(), parts })
    }

    /// The pack identifier.
    pub(crate) fn id_ref(&self) -> (r: &Identifier)
        ensures
            *r == self.spec_id(),
    {
        &self.id
    }

    /// The schema family.
    pub(crate) fn schema_family_ref(&self) -> (r: &String)
        ensures
            r@ == self.spec_schema_family(),
    {
        &self.schema_family
    }

    /// The classes, in increasing order; the pack's parts are normalized and
    /// break no rule.
    pub fn classes(&self) -> (r: &[OverlayClass])
        ensures
            r@ == self.spec_classes(),
            parts_normalized(self.spec_classes(), self.spec_overlays(), self.spec_profiles(), self.spec_variables()),
            parts_fault(self.spec_classes(), self.spec_overlays(), self.spec_profiles(), self.spec_variables()) is None,
    {
        proof {
            use_type_invariant(&self.parts);
        }
        self.parts.classes.as_slice()
    }

    /// The overlays, in identifier order.
    pub fn overlays(&self) -> (r: &[Overlay])
        ensures
            r@ == self.spec_overlays(),
    {
        self.parts.overlays.as_slice()
    }

    /// The profiles, in identifier order.
    pub fn profiles(&self) -> (r: &[Profile])
        ensures
            r@ == self.spec_profiles(),
    {
        self.parts.profiles.as_slice()
    }

    /// The variables, in identifier order.
    pub fn variables(&self) -> (r: &[Variable])
        ensures
            r@ == self.spec_variables(),
    {
        self.parts.variables.as_slice()
    }
}

} // verus!
