//! Matching a query's entry constraints against a document node's entries.

use vstd::prelude::*;

use crate::document::{DocEntry, GDocEntry};
use crate::entries::{Entries, EntryKind, GEntry};
use crate::value::GValue;

verus! {

/// Whether a constraint's optional value accepts an entry's value:
/// a missing constraint value asks only for presence.
pub open spec fn s_value_match(want: Option<GValue>, actual: GValue) -> bool {
    match want {
        Option::None => true,
        Option::Some(v) => v == actual,
    }
}

/// The `pos`-th entry among the unnamed (positional) entries of `es`.
pub open spec fn s_nth_unnamed(es: Seq<GDocEntry>, pos: int) -> Option<GDocEntry>
    decreases es.len(),
{
    if es.len() == 0 || pos < 0 {
        Option::None
    } else if es[0].name is None {
        if pos == 0 {
            Option::Some(es[0])
        } else {
            s_nth_unnamed(es.drop_first(), pos - 1)
        }
    } else {
        s_nth_unnamed(es.drop_first(), pos)
    }
}

/// The first entry of `es` named `name`.
pub open spec fn s_find_named(es: Seq<GDocEntry>, name: Seq<char>) -> Option<GDocEntry>
    decreases es.len(),
{
    if es.len() == 0 {
        Option::None
    } else if es[0].name == Option::Some(name) {
        Option::Some(es[0])
    } else {
        s_find_named(es.drop_first(), name)
    }
}

/// Whether one constraint is satisfied by a node's entries: a positional
/// constraint looks up the argument at its position among the unnamed
/// entries, a named constraint the first property of its name; both fail
/// when absent, and otherwise compare values when one is required.
pub open spec fn s_entry_match(es: Seq<GDocEntry>, q: GEntry) -> bool {
    match q {
        GEntry::Argument { position, value } => match s_nth_unnamed(es, position) {
            Option::None => false,
            Option::Some(e) => s_value_match(value, e.value),
        },
        GEntry::Property { name, value } => match s_find_named(es, name) {
            Option::None => false,
            Option::Some(e) => s_value_match(value, e.value),
        },
    }
}

/// Whether every constraint of `qs` is satisfied by `es`.
pub open spec fn s_entries_match(es: Seq<GDocEntry>, qs: Seq<GEntry>) -> bool {
    forall|i: int| 0 <= i < qs.len() ==> s_entry_match(es, #[trigger] qs[i])
}

/// The `pos`-th unnamed entry of `entries[i..]`.
fn nth_unnamed_from(entries: &Vec<DocEntry>, i: usize, pos: u64) -> (r: Option<&DocEntry>)
    requires
        i <= entries@.len(),
    ensures
        ({
            let sp = s_nth_unnamed(
                entries@.map_values(|e: DocEntry| e@).skip(i as int),
                pos as int,
            );
            match r {
                Option::None => sp is None,
                Option::Some(e) => sp is Some && e@ == sp->0,
            }
        }),
    decreases entries@.len() - i,
{
    let ghost es = entries@.map_values(|e: DocEntry| e@).skip(i as int);
    if i == entries.len() {
        return None;
    }
    proof {
        assert(es[0] == entries@[i as int]@);
        assert(es.drop_first() =~= entries@.map_values(|e: DocEntry| e@).skip(i + 1));
    }
    if entries[i].name.is_none() {
        if pos == 0 {
            Some(&entries[i])
        } else {
            nth_unnamed_from(entries, i + 1, pos - 1)
        }
    } else {
        nth_unnamed_from(entries, i + 1, pos)
    }
}

/// The first entry of `entries[i..]` named `name`.
fn find_named_from<'e>(entries: &'e Vec<DocEntry>, i: usize, name: &String) -> (r: Option<
    &'e DocEntry,
>)
    requires
        i <= entries@.len(),
    ensures
        ({
            let sp = s_find_named(entries@.map_values(|e: DocEntry| e@).skip(i as int), name@);
            match r {
                Option::None => sp is None,
                Option::Some(e) => sp is Some && e@ == sp->0,
            }
        }),
    decreases entries@.len() - i,
{
    let ghost es = entries@.map_values(|e: DocEntry| e@).skip(i as int);
    if i == entries.len() {
        return None;
    }
    proof {
        assert(es[0] == entries@[i as int]@);
        assert(es.drop_first() =~= entries@.map_values(|e: DocEntry| e@).skip(i + 1));
    }
    let is_named = match &entries[i].name {
        None => false,
        Some(n) => *n == *name,
    };
    if is_named {
        Some(&entries[i])
    } else {
        find_named_from(entries, i + 1, name)
    }
}

impl Entries {
    /// Whether every one of these constraints is satisfied by the given
    /// node entries.
    pub fn matches_entries(&self, entries: &Vec<DocEntry>) -> (r: bool)
        ensures
            r == s_entries_match(entries@.map_values(|e: DocEntry| e@), self@),
    {
        let ghost es = entries@.map_values(|e: DocEntry| e@);
        let qs = self.entries();
        let ghost gqs = self@;
        let mut i: usize = 0;
        while i < qs.len()
            invariant
                i <= qs@.len(),
                es == entries@.map_values(|e: DocEntry| e@),
                gqs == qs@.map_values(|e: EntryKind| e@),
                gqs == self@,
                forall|j: int| 0 <= j < i ==> s_entry_match(es, #[trigger] gqs[j]),
            decreases qs@.len() - i,
        {
            proof {
                assert(gqs[i as int] == qs@[i as int]@);
            }
            let ok = match &qs[i] {
                EntryKind::Argument { position, value } => {
                    match nth_unnamed_from(entries, 0, *position) {
                        None => false,
                        Some(e) => match value {
                            None => true,
                            Some(v) => v.eq_value(&e.value),
                        },
                    }
                },
                EntryKind::Property { name, value } => {
                    match find_named_from(entries, 0, name) {
                        None => false,
                        Some(e) => match value {
                            None => true,
                            Some(v) => v.eq_value(&e.value),
                        },
                    }
                },
            };
            proof {
                assert(es.skip(0) =~= es);
            }
            if !ok {
                proof {
                    assert(!s_entry_match(es, gqs[i as int]));
                    assert(0 <= i < gqs.len());
                    assert(!s_entries_match(es, gqs));
                }
                return false;
            }
            proof {
                assert(s_entry_match(es, gqs[i as int]));
            }
            i = i + 1;
        }
        true
    }
}

} // verus!
