//! Well-founded links between table entries.
use vstd::prelude::*;

verus! {

/// The entries to which each entry refers.
pub type Links = spec_fn(int) -> Seq<int>;

/// Whether no chain of links that starts at `entry` has more than `bound` entries.
pub open spec fn bounded(links: Links, entry: int, bound: nat) -> bool
    decreases bound,
{
    &&& bound > 0
    &&& forall|k: int|
        0 <= k < links(entry).len() ==> bounded(
            links,
            #[trigger] links(entry)[k],
            (bound - 1) as nat,
        )
}

/// Whether the chains of links that start at `entry` all end.
pub open spec fn well_founded(links: Links, entry: int) -> bool {
    exists|bound: nat| bounded(links, entry, bound)
}

/// The least bound on the chains of links that start at `entry`.
pub open spec fn height(links: Links, entry: int) -> nat {
    choose|bound: nat| #[trigger] least_bound(links, entry, bound)
}

/// Whether `bound` is a bound on the chains of links that start at `entry` and nothing below it is.
pub open spec fn least_bound(links: Links, entry: int, bound: nat) -> bool {
    &&& bounded(links, entry, bound)
    &&& forall|lower: nat| lower < bound ==> !bounded(links, entry, lower)
}

/// Where there is a bound, there is a least one.
proof fn lemma_least_bound(links: Links, entry: int, bound: nat)
    requires
        bounded(links, entry, bound),
    ensures
        least_bound(links, entry, height(links, entry)),
        height(links, entry) <= bound,
    decreases bound,
{
    if exists|lower: nat| lower < bound && bounded(links, entry, lower) {
        let lower = choose|lower: nat| lower < bound && bounded(links, entry, lower);
        lemma_least_bound(links, entry, lower);
    } else {
        assert(least_bound(links, entry, bound));
        let least = height(links, entry);
        assert(least_bound(links, entry, least));
        if least > bound {
            assert(!bounded(links, entry, bound));
        }
    }
}

/// The height of an entry counts the entry itself.
pub proof fn lemma_height_is_positive(links: Links, entry: int)
    requires
        well_founded(links, entry),
    ensures
        0 < height(links, entry),
{
    let bound = choose|bound: nat| bounded(links, entry, bound);
    lemma_least_bound(links, entry, bound);
}

/// An entry to which a well-founded entry refers is well-founded and lower.
pub proof fn lemma_linked_is_lower(links: Links, entry: int, k: int)
    requires
        well_founded(links, entry),
        0 <= k < links(entry).len(),
    ensures
        well_founded(links, links(entry)[k]),
        height(links, links(entry)[k]) < height(links, entry),
{
    let bound = choose|bound: nat| bounded(links, entry, bound);
    lemma_least_bound(links, entry, bound);
    let least = height(links, entry);
    assert(bounded(links, links(entry)[k], (least - 1) as nat));
    lemma_least_bound(links, links(entry)[k], (least - 1) as nat);
}

/// What is a bound stays one if it is raised.
pub proof fn lemma_bound_is_kept(links: Links, entry: int, bound: nat, higher: nat)
    requires
        bounded(links, entry, bound),
        bound <= higher,
    ensures
        bounded(links, entry, higher),
    decreases bound,
{
    assert forall|k: int| 0 <= k < links(entry).len() implies bounded(
        links,
        #[trigger] links(entry)[k],
        (higher - 1) as nat,
    ) by {
        lemma_bound_is_kept(
            links,
            links(entry)[k],
            (bound - 1) as nat,
            (higher - 1) as nat,
        );
    }
}

/// Entries whose chains all end have a bound in common.
proof fn lemma_common_bound(links: Links, entries: Seq<int>) -> (bound: nat)
    requires
        forall|k: int| 0 <= k < entries.len() ==> well_founded(links, #[trigger] entries[k]),
    ensures
        forall|k: int| 0 <= k < entries.len() ==> bounded(links, #[trigger] entries[k], bound),
    decreases entries.len(),
{
    if entries.len() == 0 {
        0
    } else {
        let rest = entries.drop_last();
        assert forall|k: int| 0 <= k < rest.len() implies well_founded(
            links,
            #[trigger] rest[k],
        ) by {
            assert(rest[k] == entries[k]);
        }
        let one = lemma_common_bound(links, rest);
        assert(well_founded(links, entries[entries.len() - 1]));
        let two = choose|bound: nat| bounded(links, entries.last(), bound);
        let bound = one + two;
        assert forall|k: int| 0 <= k < entries.len() implies bounded(
            links,
            #[trigger] entries[k],
            bound,
        ) by {
            if k < rest.len() {
                assert(rest[k] == entries[k]);
                lemma_bound_is_kept(links, entries[k], one, bound);
            } else {
                lemma_bound_is_kept(links, entries[k], two, bound);
            }
        }
        bound
    }
}

/// An entry that refers only to well-founded entries is well-founded.
pub proof fn lemma_linking_is_well_founded(links: Links, entry: int)
    requires
        forall|k: int|
            0 <= k < links(entry).len() ==> well_founded(links, #[trigger] links(entry)[k]),
    ensures
        well_founded(links, entry),
{
    let bound = lemma_common_bound(links, links(entry));
    assert(bounded(links, entry, bound + 1));
}

} // verus!
