use vstd::prelude::*;
use rand_xoshiro::Xoshiro256PlusPlus;
use crate::chemistry::{has_true, is_permutation, new_chemistry};

verus! {

/// How particles of one species change species.
#[allow(non_camel_case_types)]
#[derive(Clone, Debug)]
pub enum ConversionType {
    /// On contact with a species whose entry in `catalysts` is set, a particle turns into
    /// species `converts_to`.
    CONVERTS { converts_to: usize, catalysts: Vec<bool> },
    /// The species never changes.
    INERT,
}

/// The species that particles of species `i` turn into (`i` itself when inert).
pub open spec fn successor(types: Seq<ConversionType>, i: int) -> int {
    match types[i] {
        ConversionType::CONVERTS { converts_to, .. } => converts_to as int,
        ConversionType::INERT => i,
    }
}

/// The successor of every species, as a sequence.
pub open spec fn successors(types: Seq<ConversionType>) -> Seq<usize> {
    Seq::new(types.len(), |i: int| successor(types, i) as usize)
}

/// A table of conversions over `types.len()` species: the successors form a permutation, a
/// converting species is never its own successor, and it has a catalyst entry for every
/// species, at least one of them set.
pub open spec fn well_formed_rules(types: Seq<ConversionType>) -> bool {
    &&& forall|i: int| 0 <= i < types.len() ==> 0 <= #[trigger] successor(types, i) < types.len()
    &&& is_permutation(successors(types), types.len())
    &&& forall|i: int| 0 <= i < types.len() ==> #[trigger] converts_fit(types, i)
}

/// A converting species `i` is not its own successor and has a non-empty catalyst set that
/// covers all species.
pub open spec fn converts_fit(types: Seq<ConversionType>, i: int) -> bool {
    match types[i] {
        ConversionType::CONVERTS { converts_to, catalysts } => converts_to != i
            && catalysts@.len() == types.len() && has_true(catalysts@),
        ConversionType::INERT => true,
    }
}

/// Species `i` is inert.
pub open spec fn is_inert(types: Seq<ConversionType>, i: int) -> bool {
    types[i] is INERT
}

/// The conversion rules of `type_count` species. Without chemistry every species is inert;
/// with it, the chemistry is drawn from `rule_rng`, and a species that is its own successor
/// is inert.
pub fn conversion_types(
    type_count: usize,
    generate_chemistry: bool,
    rule_rng: &mut Xoshiro256PlusPlus,
) -> (types: Vec<ConversionType>)
    requires
        type_count >= 1,
    ensures
        types@.len() == type_count,
        well_formed_rules(types@),
        !generate_chemistry ==> forall|i: int| 0 <= i < type_count ==> is_inert(types@, i),
        type_count == 1 ==> is_inert(types@, 0),
{
    let mut types: Vec<ConversionType> = Vec::with_capacity(type_count);
    if !generate_chemistry {
        let mut i: usize = 0;
        while i < type_count
            invariant
                i <= type_count,
                types@.len() == i,
                forall|a: int| 0 <= a < i ==> is_inert(types@, a),
            decreases type_count - i,
        {
            let ghost prev = types@;
            types.push(ConversionType::INERT);
            assert forall|a: int| 0 <= a <= i implies #[trigger] is_inert(types@, a) by {
                if a < i {
                    assert(types@[a] == prev[a]);
                    assert(is_inert(prev, a));
                }
            }
            i += 1;
        }
        proof {
            let s = successors(types@);
            assert forall|a: int| 0 <= a < type_count implies #[trigger] s[a] == a by {
                assert(is_inert(types@, a));
            }
            assert forall|k: int| 0 <= k < type_count implies #[trigger]
                crate::chemistry::has_preimage(s, k) by {
                assert(s[k] == k);
            }
            assert forall|a: int| 0 <= a < type_count implies #[trigger] converts_fit(types@, a) by {
                assert(is_inert(types@, a));
            }
            assert forall|a: int| 0 <= a < type_count implies 0 <= #[trigger] successor(
                types@,
                a,
            ) < type_count by {
                assert(is_inert(types@, a));
            }
        }
        return types;
    }
    let (converts_tos, mut catalysts_of_type) = new_chemistry(type_count, rule_rng);
    let ghost cats = catalysts_of_type@;
    let mut i: usize = 0;
    while i < type_count
        invariant
            i <= type_count,
            types@.len() == i,
            catalysts_of_type@.len() == type_count,
            cats.len() == type_count,
            is_permutation(converts_tos@, type_count as nat),
            forall|a: int| i <= a < type_count ==> #[trigger] catalysts_of_type@[a] == cats[a],
            forall|a: int| 0 <= a < type_count ==> #[trigger]
                crate::chemistry::catalysts_fit(converts_tos@, cats, a, type_count as nat),
            forall|a: int| 0 <= a < i ==> #[trigger] successor(types@, a) == converts_tos@[a],
            forall|a: int| 0 <= a < i ==> #[trigger] converts_fit_n(types@, a, type_count as nat),
            forall|a: int| 0 <= a < i ==> (#[trigger] is_inert(types@, a) <==> converts_tos@[a] == a),
        decreases type_count - i,
    {
        let ghost prev = types@;
        assert(crate::chemistry::catalysts_fit(converts_tos@, cats, i as int, type_count as nat));
        if converts_tos[i] != i {
            let mut catalysts: Vec<bool> = Vec::new();
            std::mem::swap(&mut catalysts, &mut catalysts_of_type[i]);
            assert(catalysts == cats[i as int]);
            types.push(ConversionType::CONVERTS { converts_to: converts_tos[i], catalysts });
            assert(converts_fit_n(types@, i as int, type_count as nat));
        } else {
            types.push(ConversionType::INERT);
        }
        assert forall|a: int| 0 <= a < i implies types@[a] == prev[a] by {}
        assert(successor(types@, i as int) == converts_tos@[i as int]);
        assert forall|a: int| 0 <= a <= i implies #[trigger] converts_fit_n(
            types@,
            a,
            type_count as nat,
        ) by {
            if a < i {
                assert(types@[a] == prev[a]);
                assert(converts_fit_n(prev, a, type_count as nat));
            }
        }
        assert forall|a: int| 0 <= a <= i implies #[trigger] successor(types@, a)
            == converts_tos@[a] by {
            if a < i {
                assert(types@[a] == prev[a]);
                assert(successor(prev, a) == converts_tos@[a]);
            }
        }
        assert forall|a: int| 0 <= a <= i implies (#[trigger] is_inert(types@, a)
            <==> converts_tos@[a] == a) by {
            if a < i {
                assert(types@[a] == prev[a]);
                assert(is_inert(prev, a) <==> converts_tos@[a] == a);
            }
        }
        assert forall|a: int| i < a < type_count implies #[trigger] catalysts_of_type@[a] == cats[a] by {}
        i += 1;
    }
    proof {
        let s = successors(types@);
        assert(s =~= converts_tos@);
        assert forall|a: int| 0 <= a < type_count implies #[trigger] converts_fit(types@, a) by {
            assert(converts_fit_n(types@, a, type_count as nat));
        }
        assert forall|a: int| 0 <= a < type_count implies 0 <= #[trigger] successor(types@, a)
            < type_count by {
            assert(successor(types@, a) == converts_tos@[a]);
        }
        if type_count == 1 {
            assert(converts_tos@[0] < 1);
        }
    }
    types
}

/// As `converts_fit`, with the species count given apart from the table's length.
pub open spec fn converts_fit_n(types: Seq<ConversionType>, i: int, n: nat) -> bool {
    match types[i] {
        ConversionType::CONVERTS { converts_to, catalysts } => converts_to != i
            && catalysts@.len() == n && has_true(catalysts@),
        ConversionType::INERT => true,
    }
}

/// A freshly placed particle may be catalyzed exactly when its species converts.
pub fn initially_catalyzable(types: &Vec<ConversionType>, species: usize) -> (r: bool)
    requires
        species < types@.len(),
    ensures
        r == !is_inert(types@, species as int),
{
    match &types[species] {
        ConversionType::CONVERTS { .. } => true,
        ConversionType::INERT => false,
    }
}

/// The catalyzable flag of a particle of species `species` after it touched a particle of
/// species `other`: it is cleared when the flag was set, the species converts and `other` is
/// one of its catalysts; otherwise it is kept.
pub open spec fn flag_after_contact(
    types: Seq<ConversionType>,
    species: int,
    catalyzable: bool,
    other: int,
) -> bool {
    if catalyzable {
        match types[species] {
            ConversionType::CONVERTS { catalysts, .. } => !catalysts@[other],
            ConversionType::INERT => true,
        }
    } else {
        false
    }
}

/// Chemistry check of one touching pair, from the side of the particle of species `species`.
pub fn catalyzed_on_contact(
    types: &Vec<ConversionType>,
    species: usize,
    catalyzable: bool,
    other: usize,
) -> (r: bool)
    requires
        well_formed_rules(types@),
        species < types@.len(),
        other < types@.len(),
    ensures
        r == flag_after_contact(types@, species as int, catalyzable, other as int),
{
    if !catalyzable {
        return false;
    }
    assert(converts_fit(types@, species as int));
    match &types[species] {
        ConversionType::CONVERTS { catalysts, .. } => !catalysts[other],
        ConversionType::INERT => true,
    }
}

/// Species and flag after the integration step: a spent particle of a converting species
/// takes its successor's species and becomes catalyzable again; anything else is kept.
pub open spec fn after_commit(types: Seq<ConversionType>, species: int, catalyzable: bool) -> (
    int,
    bool,
) {
    if catalyzable {
        (species, true)
    } else {
        match types[species] {
            ConversionType::CONVERTS { converts_to, .. } => (converts_to as int, true),
            ConversionType::INERT => (species, false),
        }
    }
}

/// Commits a pending conversion of a particle of species `species`.
pub fn commit_conversion(types: &Vec<ConversionType>, species: usize, catalyzable: bool) -> (r: (
    usize,
    bool,
))
    requires
        well_formed_rules(types@),
        species < types@.len(),
    ensures
        (r.0 as int, r.1) == after_commit(types@, species as int, catalyzable),
        r.0 < types@.len(),
{
    if catalyzable {
        return (species, true);
    }
    assert(0 <= successor(types@, species as int) < types@.len());
    match &types[species] {
        ConversionType::CONVERTS { converts_to, .. } => (*converts_to, true),
        ConversionType::INERT => (species, false),
    }
}

/// The flag after a run of contacts, in order, with particles of the species in `contacts`.
pub open spec fn flag_after_contacts(
    types: Seq<ConversionType>,
    species: int,
    catalyzable: bool,
    contacts: Seq<int>,
) -> bool
    decreases contacts.len(),
{
    if contacts.len() == 0 {
        catalyzable
    } else {
        flag_after_contact(
            types,
            species,
            flag_after_contacts(types, species, catalyzable, contacts.drop_last()),
            contacts.last(),
        )
    }
}

/// Species and flag of a particle after one tick in which it touched `contacts`.
pub open spec fn after_tick(
    types: Seq<ConversionType>,
    species: int,
    catalyzable: bool,
    contacts: Seq<int>,
) -> (int, bool) {
    after_commit(types, species, flag_after_contacts(types, species, catalyzable, contacts))
}

/// Species and flag of a particle after a run of ticks, `ticks[t]` holding what it touched
/// in tick `t`.
pub open spec fn after_ticks(
    types: Seq<ConversionType>,
    species: int,
    catalyzable: bool,
    ticks: Seq<Seq<int>>,
) -> (int, bool)
    decreases ticks.len(),
{
    if ticks.len() == 0 {
        (species, catalyzable)
    } else {
        let (s, f) = after_ticks(types, species, catalyzable, ticks.drop_last());
        after_tick(types, s, f, ticks.last())
    }
}

/// A particle of an inert species keeps its species over any number of ticks, whatever it
/// touches.
pub proof fn lemma_inert_species_is_stable(
    types: Seq<ConversionType>,
    species: int,
    catalyzable: bool,
    ticks: Seq<Seq<int>>,
)
    requires
        0 <= species < types.len(),
        is_inert(types, species),
    ensures
        after_ticks(types, species, catalyzable, ticks).0 == species,
    decreases ticks.len(),
{
    if ticks.len() > 0 {
        lemma_inert_species_is_stable(types, species, catalyzable, ticks.drop_last());
    }
}

} // verus!
