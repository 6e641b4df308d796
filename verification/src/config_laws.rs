//! What the configuration of the special workspaces means, and the order of
//! their names.

use vstd::prelude::*;

use crate::names;
use crate::special_config;
use crate::special_config::{NumberedSpecialsConfig, SpecialAnchor, SpecialConfig};

verus! {

/// A name comes before another where it has the smaller character at the first
/// position at which they differ, or is a proper beginning of it.
pub proof fn law_names_are_ordered_by_character(a: Seq<char>, b: Seq<char>)
    ensures
        names::name_lt(a, b) <==> (exists|i: int|
            0 <= i < a.len() && i < b.len() && #[trigger] a[i] < b[i] && forall|k: int|
                0 <= k < i ==> #[trigger] a[k] == b[k]) || (a.len() < b.len() && forall|k: int|
            0 <= k < a.len() ==> #[trigger] a[k] == b[k]),
{
    if names::name_lt(a, b) {
        let i = choose|i: int| names::below_at(a, b, i);
        assert forall|k: int| 0 <= k < i implies #[trigger] a[k] == b[k] by {
            assert(a.take(i)[k] == b.take(i)[k]);
        }
        if i < a.len() {
            assert(a[i] < b[i]);
        }
    }
    if exists|i: int|
        0 <= i < a.len() && i < b.len() && #[trigger] a[i] < b[i] && forall|k: int|
            0 <= k < i ==> #[trigger] a[k] == b[k] {
        let i = choose|i: int|
            0 <= i < a.len() && i < b.len() && #[trigger] a[i] < b[i] && forall|k: int|
                0 <= k < i ==> #[trigger] a[k] == b[k];
        assert(a.take(i) =~= b.take(i));
        assert(names::below_at(a, b, i));
    }
    if a.len() < b.len() && forall|k: int| 0 <= k < a.len() ==> #[trigger] a[k] == b[k] {
        let i = a.len() as int;
        assert(a.take(i) =~= b.take(i));
        assert(names::below_at(a, b, i));
    }
}

/// Sorted names are pairwise in order.
pub proof fn law_sorted_names(all: Seq<Seq<char>>)
    ensures
        special_config::sorted(all) <==> forall|i: int, j: int|
            0 <= i < all.len() && i < j < all.len() ==> names::name_lt(
                #[trigger] all[i],
                #[trigger] all[j],
            ),
{
}

/// The twelve numbered specials have the slots 0 to 11; a number below or
/// above gets the first or the last of them.
pub proof fn law_numbered_slots(n: int)
    ensures
        special_config::SPECIAL_NUMBERED_SLOTS == 12,
        1 <= n <= 12 ==> special_config::numbered_slot_of(n) == n - 1,
        n < 1 ==> special_config::numbered_slot_of(n) == 0,
        n > 12 ==> special_config::numbered_slot_of(n) == 11,
{
}

/// The named specials have the slots from 12 on, in the order of their names;
/// a name that is not declared has none.
pub proof fn law_named_slots(all: Seq<Seq<char>>, i: int, name: Seq<char>)
    requires
        special_config::sorted(all),
    ensures
        0 <= i < all.len() ==> special_config::slot_of(all, all[i]) == Some(12 + i),
        (forall|k: int| 0 <= k < all.len() ==> #[trigger] all[k] != name)
            ==> special_config::slot_of(all, name) is None,
{
    if 0 <= i < all.len() {
        assert(all.contains(all[i]));
        let k = all.index_of(all[i]);
        assert(all[k] == all[i]);
        names::lemma_name_lt_irreflexive(all[i]);
        assert(k == i);
    }
}

/// A configuration changes nothing where it sets no size, keeps the anchor at
/// the center and names no special.
pub proof fn law_what_changes_nothing(config: SpecialConfig)
    ensures
        NumberedSpecialsConfig::builtin().width is None,
        NumberedSpecialsConfig::builtin().height is None,
        NumberedSpecialsConfig::builtin().anchor == SpecialAnchor::Center,
        config.changes_nothing() <==> config.numbered.width is None
            && config.numbered.height is None && config.numbered.anchor == SpecialAnchor::Center && (
        forall|name: Seq<char>| !#[trigger] config.named@.dom().contains(name)),
{
    if forall|name: Seq<char>| !#[trigger] config.named@.dom().contains(name) {
        assert(config.named@ =~= Map::empty());
    }
}

} // verus!
