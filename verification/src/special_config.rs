//! Configuration for special workspaces (the scratchpad-style second
//! visibility domain).
//!
//! Two kinds coexist and are independent:
//!
//! - **Numbered** specials (`special 1..12`). Their numbering is fixed and
//!   cannot be renamed or reordered; only a shared default geometry can be
//!   configured.
//! - **Named** specials. Each entry declares its own geometry and `on_demand`
//!   flag. Names get their own slot IDs (offset past the numbered range) so
//!   toggling a named special never disturbs a numbered one.
//!
//! The default configuration reproduces the built-in behavior exactly (no
//! geometry overrides, no named specials).

use vstd::prelude::*;

use crate::names;
use crate::names::NameOrder;

verus! {

/// Number of fixed numbered special slots (F1..F12). Named specials are
/// assigned slot IDs at or after this offset.
pub const SPECIAL_NUMBERED_SLOTS: usize = 12;

/// Where a special workspace is placed on the output when shown.
#[derive(Debug, Clone, Copy, PartialEq, Eq, Structural)]
pub enum SpecialAnchor {
    Center,
    Top,
    Bottom,
    Left,
    Right,
}

impl Default for SpecialAnchor {
    fn default() -> (r: Self)
        ensures
            r == SpecialAnchor::Center,
    {
        SpecialAnchor::Center
    }
}

/// Geometry shared by the numbered specials. `None` sizes keep the
/// compositor's automatic floating placement.
#[derive(Debug, Clone, Copy, PartialEq, Eq, Structural)]
pub struct NumberedSpecialsConfig {
    pub width: Option<u32>,
    pub height: Option<u32>,
    pub anchor: SpecialAnchor,
}

impl NumberedSpecialsConfig {
    /// No geometry overrides.
    pub open spec fn builtin() -> Self {
        NumberedSpecialsConfig { width: None, height: None, anchor: SpecialAnchor::Center }
    }
}

impl Default for NumberedSpecialsConfig {
    fn default() -> (r: Self)
        ensures
            r == NumberedSpecialsConfig::builtin(),
    {
        NumberedSpecialsConfig { width: None, height: None, anchor: SpecialAnchor::Center }
    }
}

/// One named special workspace.
#[derive(Debug, Clone, Copy, PartialEq, Eq, Structural)]
pub struct NamedSpecialConfig {
    pub width: Option<u32>,
    pub height: Option<u32>,
    pub anchor: SpecialAnchor,
    /// Reserved for a future quake-style toggle: when true, showing an empty
    /// named special may spawn an associated command. Not acted on by the
    /// compositor yet.
    pub on_demand: bool,
}

impl Default for NamedSpecialConfig {
    fn default() -> (r: Self)
        ensures
            r == (NamedSpecialConfig {
                width: None,
                height: None,
                anchor: SpecialAnchor::Center,
                on_demand: false,
            }),
    {
        NamedSpecialConfig {
            width: None,
            height: None,
            anchor: SpecialAnchor::Center,
            on_demand: false,
        }
    }
}

/// Whether names come in strictly increasing order.
pub open spec fn sorted(names: Seq<Seq<char>>) -> bool {
    forall|i: int, j: int|
        0 <= i < j < names.len() ==> names::name_lt(#[trigger] names[i], #[trigger] names[j])
}

/// Named specials, keyed by name and kept in name order.
#[derive(Debug, Clone, PartialEq, Eq)]
pub struct NamedSpecials {
    rows: Vec<(String, NamedSpecialConfig)>,
}

impl View for NamedSpecials {
    type V = Map<Seq<char>, NamedSpecialConfig>;

    closed spec fn view(&self) -> Map<Seq<char>, NamedSpecialConfig> {
        Map::new(
            |n: Seq<char>| self.names().contains(n),
            |n: Seq<char>| self.rows@[self.names().index_of(n)].1,
        )
    }
}

impl NamedSpecials {
    /// The names, in order.
    pub closed spec fn names(self) -> Seq<Seq<char>> {
        Seq::new(self.rows@.len(), |i: int| self.rows@[i].0@)
    }

    /// The names are in order, each once.
    pub open spec fn wf(self) -> bool {
        sorted(self.names())
    }

    /// The names are the keys.
    pub proof fn lemma_names(self)
        ensures
            forall|n: Seq<char>| self.names().contains(n) <==> #[trigger] self@.dom().contains(n),
    {
    }

    /// A row holds what its name maps to.
    proof fn lemma_row(self, i: int)
        requires
            self.wf(),
            0 <= i < self.rows@.len(),
        ensures
            self@.dom().contains(self.rows@[i].0@),
            self@[self.rows@[i].0@] == self.rows@[i].1,
    {
        let names = self.names();
        assert(names[i] == self.rows@[i].0@);
        assert(names.contains(names[i]));
        let k = names.index_of(names[i]);
        assert(0 <= k < names.len() && names[k] == names[i]);
        names::lemma_name_lt_irreflexive(names[i]);
        assert(k == i);
    }

    /// Without names.
    pub fn new() -> (r: Self)
        ensures
            r.wf(),
            r@ == Map::<Seq<char>, NamedSpecialConfig>::empty(),
            r.names().len() == 0,
    {
        let r = NamedSpecials { rows: Vec::new() };
        assert(r@ =~= Map::empty());
        r
    }

    /// Whether there is no named special.
    pub fn is_empty(&self) -> (r: bool)
        ensures
            r <==> self@ == Map::<Seq<char>, NamedSpecialConfig>::empty(),
            r <==> self.names().len() == 0,
    {
        proof {
            if self.rows@.len() == 0 {
                assert(self@ =~= Map::empty());
            } else {
                assert(self.names().contains(self.names()[0]));
                assert(self@.dom().contains(self.names()[0]));
            }
        }
        self.rows.is_empty()
    }

    /// Position of the first name that is not before `name`.
    fn place_of(&self, name: &str) -> (r: usize)
        requires
            self.wf(),
        ensures
            r <= self.rows@.len(),
            forall|i: int| 0 <= i < r ==> names::name_lt(#[trigger] self.names()[i], name@),
            forall|i: int|
                r <= i < self.rows@.len() ==> !names::name_lt(#[trigger] self.names()[i], name@),
    {
        let mut i: usize = 0;
        while i < self.rows.len()
            invariant
                self.wf(),
                i <= self.rows@.len(),
                forall|j: int| 0 <= j < i ==> names::name_lt(#[trigger] self.names()[j], name@),
            decreases self.rows@.len() - i,
        {
            assert(self.names()[i as int] == self.rows@[i as int].0@);
            match names::compare_names(self.rows[i].0.as_str(), name) {
                NameOrder::Before => {},
                _ => {
                    proof {
                        assert forall|j: int| i <= j < self.rows@.len() implies !names::name_lt(
                            #[trigger] self.names()[j],
                            name@,
                        ) by {
                            if i < j && names::name_lt(self.names()[j], name@) {
                                names::lemma_name_lt_transitive(
                                    self.names()[i as int],
                                    self.names()[j],
                                    name@,
                                );
                            }
                        }
                    }
                    return i;
                },
            }
            i = i + 1;
        }
        i
    }

    /// Position of `name` in name order.
    fn position(&self, name: &str) -> (r: Option<usize>)
        requires
            self.wf(),
        ensures
            match r {
                Some(i) => i < self.rows@.len() && self.names()[i as int] == name@,
                None => !self.names().contains(name@),
            },
    {
        let i = self.place_of(name);
        if i < self.rows.len() {
            assert(self.names()[i as int] == self.rows@[i as int].0@);
            match names::compare_names(self.rows[i].0.as_str(), name) {
                NameOrder::Same => {
                    return Some(i);
                },
                _ => {},
            }
        }
        proof {
            assert forall|j: int| 0 <= j < self.rows@.len() implies #[trigger] self.names()[j]
                != name@ by {
                names::lemma_name_lt_irreflexive(name@);
                if i < j {
                    assert(names::name_lt(self.names()[i as int], self.names()[j]));
                }
            }
        }
        None
    }

    /// Declare the special `name`, or replace its declaration; returns what
    /// was declared before.
    pub fn insert(&mut self, name: String, config: NamedSpecialConfig) -> (r: Option<
        NamedSpecialConfig,
    >)
        requires
            old(self).wf(),
        ensures
            final(self).wf(),
            final(self)@ == old(self)@.insert(name@, config),
            final(self).names().len() == old(self).names().len() + if old(self)@.dom().contains(
                name@,
            ) {
                0int
            } else {
                1
            },
            r == if old(self)@.dom().contains(name@) {
                Some(old(self)@[name@])
            } else {
                None
            },
    {
        let ghost before = *self;
        let ghost key = name@;
        match self.position(name.as_str()) {
            Some(i) => {
                proof {
                    self.lemma_row(i as int);
                    assert(self.names()[i as int] == self.rows@[i as int].0@);
                }
                let was = self.rows[i].1;
                self.rows[i].1 = config;
                proof {
                    assert(self.names() =~= before.names());
                    assert forall|k: int|
                        0 <= k < before.rows@.len() && before.rows@[k].0@
                            != key implies self.rows@.contains(#[trigger] before.rows@[k]) by {
                        assert(self.rows@[k] == before.rows@[k]);
                    }
                    assert forall|j: int|
                        0 <= j < self.rows@.len() && j != i implies before.rows@.contains(
                        #[trigger] self.rows@[j],
                    ) by {
                        assert(before.rows@[j] == self.rows@[j]);
                    }
                    lemma_inserted(before, *self, key, config, i as int);
                }
                Some(was)
            },
            None => {
                let i = self.place_of(name.as_str());
                self.rows.insert(i, (name, config));
                proof {
                    let names = before.names();
                    assert(self.names() =~= names.insert(i as int, key));
                    assert forall|j: int| i <= j < names.len() implies names::name_lt(
                        key,
                        #[trigger] names[j],
                    ) by {
                        assert(names.contains(names[j]));
                        names::lemma_name_lt_total(key, names[j]);
                    }
                    assert(sorted(self.names())) by {
                        let after = self.names();
                        assert forall|a: int, b: int| 0 <= a < b < after.len() implies names::name_lt(
                            #[trigger] after[a],
                            #[trigger] after[b],
                        ) by {
                            if a < i && b > i {
                                assert(names::name_lt(names[a], names[b - 1]));
                            } else if a > i {
                                assert(names::name_lt(names[a - 1], names[b - 1]));
                            } else if b < i {
                                assert(names::name_lt(names[a], names[b]));
                            } else if a == i {
                                assert(after[b] == names[b - 1]);
                            } else {
                                assert(after[a] == names[a]);
                            }
                        }
                    }
                    assert forall|k: int|
                        0 <= k < before.rows@.len() implies self.rows@.contains(
                        #[trigger] before.rows@[k],
                    ) by {
                        if k < i {
                            assert(self.rows@[k] == before.rows@[k]);
                        } else {
                            assert(self.rows@[k + 1] == before.rows@[k]);
                        }
                    }
                    assert forall|j: int|
                        0 <= j < self.rows@.len() && j != i implies before.rows@.contains(
                        #[trigger] self.rows@[j],
                    ) by {
                        if j < i {
                            assert(before.rows@[j] == self.rows@[j]);
                        } else {
                            assert(before.rows@[j - 1] == self.rows@[j]);
                        }
                    }
                    lemma_inserted(before, *self, key, config, i as int);
                }
                None
            },
        }
    }

    /// The declaration of the special `name`.
    pub fn get(&self, name: &str) -> (r: Option<&NamedSpecialConfig>)
        requires
            self.wf(),
        ensures
            r == if self@.dom().contains(name@) {
                Some(&self@[name@])
            } else {
                None
            },
    {
        match self.position(name) {
            Some(i) => {
                proof {
                    self.lemma_row(i as int);
                    assert(self.names()[i as int] == self.rows@[i as int].0@);
                }
                Some(&self.rows[i].1)
            },
            None => None,
        }
    }

    /// The declarations, in name order.
    pub fn rows(&self) -> (r: &[(String, NamedSpecialConfig)])
        requires
            self.wf(),
        ensures
            r@.len() == self.names().len(),
            forall|i: int|
                0 <= i < r@.len() ==> (#[trigger] r@[i]).0@ == self.names()[i] && r@[i].1
                    == self@[self.names()[i]],
    {
        proof {
            assert forall|i: int| 0 <= i < self.rows@.len() implies (#[trigger] self.rows@[i]).0@
                == self.names()[i] && self.rows@[i].1 == self@[self.names()[i]] by {
                self.lemma_row(i);
            }
        }
        self.rows.as_slice()
    }
}

/// Rows that differ in one row, which is `key`'s, hold the map with `key`
/// set.
proof fn lemma_inserted(
    before: NamedSpecials,
    after: NamedSpecials,
    key: Seq<char>,
    config: NamedSpecialConfig,
    i: int,
)
    requires
        before.wf(),
        after.wf(),
        0 <= i < after.rows@.len(),
        after.rows@[i].0@ == key,
        after.rows@[i].1 == config,
        forall|j: int|
            0 <= j < after.rows@.len() && j != i ==> before.rows@.contains(
                #[trigger] after.rows@[j],
            ),
        forall|k: int|
            0 <= k < before.rows@.len() && before.rows@[k].0@ != key ==> after.rows@.contains(
                #[trigger] before.rows@[k],
            ),
    ensures
        after@ == before@.insert(key, config),
{
    let expected = before@.insert(key, config);
    after.lemma_names();
    before.lemma_names();
    assert forall|n: Seq<char>| #[trigger] after@.dom().contains(n) implies expected.dom().contains(n)
        && after@[n] == expected[n] by {
        let j = after.names().index_of(n);
        assert(after.names().contains(n));
        assert(after.rows@[j].0@ == n);
        after.lemma_row(j);
        after.lemma_row(i);
        if n != key {
            let k = before.rows@.index_of(after.rows@[j]);
            before.lemma_row(k);
        }
    }
    assert forall|n: Seq<char>| #[trigger] expected.dom().contains(n) implies after@.dom().contains(n) by {
        if n == key {
            after.lemma_row(i);
        } else {
            let k = before.names().index_of(n);
            assert(before.names().contains(n));
            assert(before.rows@[k].0@ == n);
            let j = after.rows@.index_of(before.rows@[k]);
            after.lemma_row(j);
        }
    }
    assert(after@.dom() =~= expected.dom());
    assert(after@ =~= expected);
}

/// The `[special]` section. Every field defaults, so a config without this
/// section behaves exactly like a compositor built without it.
#[derive(Debug, Clone, PartialEq, Eq)]
pub struct SpecialConfig {
    /// Default geometry for the numbered specials (`special 1..12`).
    pub numbered: NumberedSpecialsConfig,
    /// Named specials, keyed by name.
    pub named: NamedSpecials,
}

impl Default for SpecialConfig {
    fn default() -> (r: Self)
        ensures
            r.numbered == NumberedSpecialsConfig::builtin(),
            r.named@ == Map::<Seq<char>, NamedSpecialConfig>::empty(),
            r.named.names().len() == 0,
            r.wf(),
            r.changes_nothing(),
    {
        SpecialConfig { numbered: NumberedSpecialsConfig::default(), named: NamedSpecials::new() }
    }
}

/// The slot of `special n`: the numbered slots in order, and the nearest one
/// for a number outside them.
pub open spec fn numbered_slot_of(n: int) -> int {
    if n <= 1 {
        0
    } else if n <= SPECIAL_NUMBERED_SLOTS {
        n - 1
    } else {
        SPECIAL_NUMBERED_SLOTS - 1
    }
}

/// The slot of a named special, among `names` in name order: past the
/// numbered slots, in that order.
pub open spec fn slot_of(names: Seq<Seq<char>>, name: Seq<char>) -> Option<int> {
    if names.contains(name) {
        Some(SPECIAL_NUMBERED_SLOTS + names.index_of(name))
    } else {
        None
    }
}

impl SpecialConfig {
    /// The named specials are in name order.
    pub open spec fn wf(self) -> bool {
        self.named.wf()
    }

    /// No geometry override and no named special.
    pub open spec fn changes_nothing(self) -> bool {
        &&& self.numbered == NumberedSpecialsConfig::builtin()
        &&& self.named@ == Map::<Seq<char>, NamedSpecialConfig>::empty()
    }

    /// True when the config changes nothing relative to the built-in
    /// behavior (no geometry overrides, no named specials).
    pub fn is_noop(&self) -> (r: bool)
        ensures
            r == self.changes_nothing(),
    {
        self.numbered == NumberedSpecialsConfig::default() && self.named.is_empty()
    }

    /// Slot ID for `special N` (1-based, as bound to F1..F12).
    pub fn numbered_slot(n: u8) -> (r: usize)
        ensures
            r == numbered_slot_of(n as int),
            r < SPECIAL_NUMBERED_SLOTS,
    {
        let slot = (n as usize).saturating_sub(1);
        if slot < SPECIAL_NUMBERED_SLOTS - 1 {
            slot
        } else {
            SPECIAL_NUMBERED_SLOTS - 1
        }
    }

    /// The slot ID a named special resolves to: offset past the numbered
    /// range, in sorted-name order so the assignment is stable across
    /// reloads.
    pub fn slot_for_name(&self, name: &str) -> (r: Option<usize>)
        requires
            self.wf(),
            SPECIAL_NUMBERED_SLOTS + self.named.names().len() <= usize::MAX,
        ensures
            match slot_of(self.named.names(), name@) {
                Some(slot) => r is Some && r->0 == slot,
                None => r is None,
            },
            r is Some <==> self.named@.dom().contains(name@),
            r is Some ==> r->0 >= SPECIAL_NUMBERED_SLOTS,
    {
        proof {
            self.named.lemma_names();
        }
        match self.named.position(name) {
            Some(idx) => {
                proof {
                    let names = self.named.names();
                    assert(names.contains(name@));
                    lemma_index_of_sorted(names, idx as int);
                }
                Some(SPECIAL_NUMBERED_SLOTS + idx)
            },
            None => None,
        }
    }
}

/// In sorted names every position is the position of its name.
proof fn lemma_index_of_sorted(names: Seq<Seq<char>>, i: int)
    requires
        sorted(names),
        0 <= i < names.len(),
    ensures
        names.index_of(names[i]) == i,
{
    let k = names.index_of(names[i]);
    assert(names.contains(names[i]));
    assert(0 <= k < names.len() && names[k] == names[i]);
    names::lemma_name_lt_irreflexive(names[i]);
}

/// Names are sorted in one way only.
proof fn lemma_sorted_once(a: Seq<Seq<char>>, b: Seq<Seq<char>>)
    requires
        sorted(a),
        sorted(b),
        forall|n: Seq<char>| a.contains(n) <==> b.contains(n),
    ensures
        a == b,
    decreases a.len(),
{
    if a.len() == 0 || b.len() == 0 {
        if a.len() > 0 {
            assert(a.contains(a[0]));
        }
        if b.len() > 0 {
            assert(b.contains(b[0]));
        }
        assert(a =~= b);
    } else {
        assert(a.contains(a[0]) && b.contains(b[0]));
        let k = b.index_of(a[0]);
        let m = a.index_of(b[0]);
        assert(b[k] == a[0] && a[m] == b[0]);
        if k > 0 {
            assert(names::name_lt(b[0], b[k]));
            if m > 0 {
                assert(names::name_lt(a[0], a[m]));
                names::lemma_name_lt_asymmetric(a[0], b[0]);
            } else {
                names::lemma_name_lt_irreflexive(a[0]);
            }
        }
        assert(a[0] == b[0]);
        let ra = a.drop_first();
        let rb = b.drop_first();
        assert forall|n: Seq<char>| ra.contains(n) <==> rb.contains(n) by {
            lemma_rest_contains(a, n);
            lemma_rest_contains(b, n);
        }
        lemma_sorted_once(ra, rb);
        assert(a =~= seq![a[0]] + ra);
        assert(b =~= seq![b[0]] + rb);
    }
}

/// The names after the first are the names other than the first.
proof fn lemma_rest_contains(a: Seq<Seq<char>>, n: Seq<char>)
    requires
        sorted(a),
        a.len() > 0,
    ensures
        sorted(a.drop_first()),
        a.drop_first().contains(n) <==> a.contains(n) && n != a[0],
{
    let rest = a.drop_first();
    if rest.contains(n) {
        let i = rest.index_of(n);
        assert(a[i + 1] == n);
        assert(names::name_lt(a[0], a[i + 1]));
        names::lemma_name_lt_irreflexive(n);
    }
    if a.contains(n) && n != a[0] {
        let i = a.index_of(n);
        assert(rest[i - 1] == n);
    }
}

/// A named special never has the slot of a numbered one.
pub proof fn law_named_and_numbered_slots_are_disjoint(
    names: Seq<Seq<char>>,
    name: Seq<char>,
    n: int,
)
    ensures
        0 <= numbered_slot_of(n) < SPECIAL_NUMBERED_SLOTS,
        slot_of(names, name) is Some ==> slot_of(names, name)->0 > numbered_slot_of(n),
{
    if names.contains(name) {
        assert(0 <= names.index_of(name));
    }
}

/// Different names have different slots.
pub proof fn law_named_slots_are_distinct(names: Seq<Seq<char>>, a: Seq<char>, b: Seq<char>)
    requires
        names.contains(a),
        names.contains(b),
        slot_of(names, a) == slot_of(names, b),
    ensures
        a == b,
{
}

/// Slots follow the order of the names.
pub proof fn law_named_slots_follow_name_order(
    names: Seq<Seq<char>>,
    a: Seq<char>,
    b: Seq<char>,
)
    requires
        sorted(names),
        names.contains(a),
        names.contains(b),
    ensures
        slot_of(names, a)->0 < slot_of(names, b)->0 <==> names::name_lt(a, b),
{
    let i = names.index_of(a);
    let j = names.index_of(b);
    assert(names[i] == a && names[j] == b);
    names::lemma_name_lt_irreflexive(a);
    if i < j {
        assert(names::name_lt(names[i], names[j]));
    } else if j < i {
        assert(names::name_lt(names[j], names[i]));
        names::lemma_name_lt_asymmetric(b, a);
    }
}

/// The slots depend on which names are declared alone: not on the order they
/// were declared in, nor on what is declared of them.
pub proof fn law_named_slots_are_stable(a: NamedSpecials, b: NamedSpecials, name: Seq<char>)
    requires
        a.wf(),
        b.wf(),
        a@.dom() == b@.dom(),
    ensures
        slot_of(a.names(), name) == slot_of(b.names(), name),
{
    a.lemma_names();
    b.lemma_names();
    assert forall|n: Seq<char>| a.names().contains(n) <==> b.names().contains(n) by {
        assert(a.names().contains(n) == a@.dom().contains(n));
        assert(b.names().contains(n) == b@.dom().contains(n));
    }
    lemma_sorted_once(a.names(), b.names());
}

} // verus!
