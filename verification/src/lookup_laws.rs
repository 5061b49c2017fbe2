//! What looking an object up comes to, given what each place holds.

use crate::error::GitError;
use crate::lookup::base_step;
use crate::lookup::header_from;
use crate::lookup::pack_step;
use crate::lookup::read_from;
use crate::lookup::search_from;
use crate::lookup::Answers;
use crate::lookup::BaseSource;
use crate::lookup::HeaderState;
use crate::lookup::HeaderWorld;
use crate::lookup::LookupSource;
use crate::lookup::LookupStep;
use crate::lookup::PackSource;
use crate::lookup::ReadState;
use crate::lookup::ReadWorld;
use crate::presence::presence_step;
use crate::presence::PresenceSource;
use vstd::prelude::*;

verus! {

proof fn lemma_search_alternates<T>(answers: Answers<LookupSource, T>, from: usize, alternates: usize)
    requires
        from < alternates,
    ensures
        forall|k: usize|
            from <= k < alternates && (#[trigger] answers(LookupSource::Alternate(k))) != Ok::<Option<T>, GitError>(None)
                && (forall|j: usize|
                from <= j < k ==> (#[trigger] answers(LookupSource::Alternate(j))) == Ok::<Option<T>, GitError>(None))
                ==> search_from(answers, LookupSource::Alternate(from), alternates) == answers(
                LookupSource::Alternate(k),
            ),
        (forall|j: usize|
            from <= j < alternates ==> (#[trigger] answers(LookupSource::Alternate(j))) == Ok::<Option<T>, GitError>(
                None,
            )) ==> search_from(answers, LookupSource::Alternate(from), alternates) == answers(LookupSource::RetryLoose),
    decreases alternates - from,
{
    reveal_with_fuel(search_from, 3);
    let here = answers(LookupSource::Alternate(from));
    if here == Ok::<Option<T>, GitError>(None) && from + 1 < alternates {
        lemma_search_alternates(answers, (from + 1) as usize, alternates);
    }
}

/// A search asks the loose store, the packs, each alternate in turn and the
/// loose store once more, and ends with the first answer other than that the
/// object is not there.
pub proof fn law_search_takes_the_first_answer<T>(answers: Answers<LookupSource, T>, alternates: usize)
    ensures
        ({
            let result = search_from(answers, LookupSource::Loose, alternates);
            let absent = Ok::<Option<T>, GitError>(None);
            &&& answers(LookupSource::Loose) != absent ==> result == answers(LookupSource::Loose)
            &&& answers(LookupSource::Loose) == absent && answers(LookupSource::Packed) != absent ==> result
                == answers(LookupSource::Packed)
            &&& forall|k: usize|
                answers(LookupSource::Loose) == absent && answers(LookupSource::Packed) == absent && k < alternates && (
                #[trigger] answers(LookupSource::Alternate(k))) != absent && (forall|j: usize|
                    j < k ==> (#[trigger] answers(LookupSource::Alternate(j))) == absent) ==> result == answers(
                    LookupSource::Alternate(k),
                )
            &&& answers(LookupSource::Loose) == absent && answers(LookupSource::Packed) == absent && (forall|j: usize|
                j < alternates ==> (#[trigger] answers(LookupSource::Alternate(j))) == absent) ==> result == answers(
                LookupSource::RetryLoose,
            )
        }),
{
    reveal_with_fuel(search_from, 4);
    if alternates > 0 {
        lemma_search_alternates(answers, 0, alternates);
    }
}

proof fn lemma_rescue_alternates<T>(world: ReadWorld<T>, from: usize, err: GitError, alternates: usize)
    requires
        from < alternates,
        world.alternates.len() == alternates,
    ensures
        forall|k: int|
            from <= k < alternates && (#[trigger] world.alternates[k]) is Ok && (forall|j: int|
                from <= j < k ==> (#[trigger] world.alternates[j]) is Err) ==> read_from(
                world,
                ReadState::RescueAlternate(from, err),
                alternates,
            ) == Ok::<Option<T>, GitError>(Some(world.alternates[k]->Ok_0)),
        (forall|j: int| from <= j < alternates ==> (#[trigger] world.alternates[j]) is Err) ==> read_from(
            world,
            ReadState::RescueAlternate(from, err),
            alternates,
        ) == Err::<Option<T>, GitError>(err),
    decreases alternates - from,
{
    reveal_with_fuel(read_from, 3);
    assert(world.alternates[from as int] is Ok || world.alternates[from as int] is Err);
    if world.alternates[from as int] is Err && from + 1 < alternates {
        lemma_rescue_alternates(world, (from + 1) as usize, err, alternates);
    }
}

/// A read of an object that a pack lists hands on the copy in that pack. Where
/// that copy fails for another reason than that it is missing, the loose copy
/// stands in for it, then one in another pack, then that of the first alternate
/// that reads it, and where there is none the failure is that of the packed
/// copy.
pub proof fn law_listed_object_is_read_or_rescued<T>(world: ReadWorld<T>, alternates: usize)
    requires
        world.alternates.len() == alternates,
        world.listed == Ok::<bool, GitError>(true),
        world.packed_copy matches Err(err) ==> !(err is NotFound),
    ensures
        ({
            let result = read_from(world, ReadState::FindPack, alternates);
            if world.packed_copy is Ok {
                result == Ok::<Option<T>, GitError>(Some(world.packed_copy->Ok_0))
            } else if world.loose is Ok {
                result == Ok::<Option<T>, GitError>(Some(world.loose->Ok_0))
            } else if world.other_packs != Ok::<Option<T>, GitError>(None) {
                result == world.other_packs
            } else {
                &&& forall|k: int|
                    0 <= k < alternates && (#[trigger] world.alternates[k]) is Ok && (forall|j: int|
                        0 <= j < k ==> (#[trigger] world.alternates[j]) is Err) ==> result == Ok::<
                        Option<T>,
                        GitError,
                    >(Some(world.alternates[k]->Ok_0))
                &&& (forall|j: int| 0 <= j < alternates ==> (#[trigger] world.alternates[j]) is Err) ==> result == Err::<
                    Option<T>,
                    GitError,
                >(world.packed_copy->Err_0)
            }
        }),
{
    reveal_with_fuel(read_from, 5);
    if world.packed_copy is Err && alternates > 0 {
        lemma_rescue_alternates(world, 0, world.packed_copy->Err_0, alternates);
    }
}

proof fn lemma_read_alternates<T>(world: ReadWorld<T>, from: usize, pending: Option<GitError>, alternates: usize)
    requires
        from < alternates,
        world.alternates.len() == alternates,
    ensures
        forall|k: int|
            from <= k < alternates && !((#[trigger] world.alternates[k]) matches Err(GitError::NotFound(_))) && (forall|
                j: int,
            |
                from <= j < k ==> ((#[trigger] world.alternates[j]) matches Err(GitError::NotFound(_))))
                ==> match world.alternates[k] {
                Ok(object) => read_from(world, ReadState::Alternate(from, pending), alternates) == Ok::<
                    Option<T>,
                    GitError,
                >(Some(object)),
                Err(err) => read_from(world, ReadState::Alternate(from, pending), alternates) == Err::<
                    Option<T>,
                    GitError,
                >(err),
            },
        (forall|j: int| from <= j < alternates ==> ((#[trigger] world.alternates[j]) matches Err(GitError::NotFound(_))))
            ==> read_from(world, ReadState::Alternate(from, pending), alternates) == read_from(
            world,
            ReadState::RetryLoose(pending),
            alternates,
        ),
    decreases alternates - from,
{
    reveal_with_fuel(read_from, 3);
    let here = world.alternates[from as int];
    if (here matches Err(GitError::NotFound(_))) && from + 1 < alternates {
        lemma_read_alternates(world, (from + 1) as usize, pending, alternates);
    }
}

/// A read of an object that no pack lists, or whose listed copy is missing,
/// hands on the loose copy, else what the packs answer, else the answer of the
/// first alternate that does not miss it, else what a second look at the loose
/// store gives. Where the object is nowhere, a loose copy that failed for
/// another reason than that it is missing is what the read fails with.
pub proof fn law_unlisted_object_is_sought_everywhere<T>(world: ReadWorld<T>, alternates: usize)
    requires
        world.alternates.len() == alternates,
        world.listed == Ok::<bool, GitError>(false) || world.listed == Ok::<bool, GitError>(true) && (
        world.packed_copy matches Err(GitError::NotFound(_))),
    ensures
        ({
            let result = read_from(world, ReadState::FindPack, alternates);
            if world.loose is Ok {
                result == Ok::<Option<T>, GitError>(Some(world.loose->Ok_0))
            } else if world.packed != Ok::<Option<T>, GitError>(None) {
                result == world.packed
            } else {
                &&& forall|k: int|
                    0 <= k < alternates && !((#[trigger] world.alternates[k]) matches Err(GitError::NotFound(_))) && (
                    forall|j: int| 0 <= j < k ==> ((#[trigger] world.alternates[j]) matches Err(GitError::NotFound(_))))
                        ==> match world.alternates[k] {
                        Ok(object) => result == Ok::<Option<T>, GitError>(Some(object)),
                        Err(err) => result == Err::<Option<T>, GitError>(err),
                    }
                &&& (forall|j: int|
                    0 <= j < alternates ==> ((#[trigger] world.alternates[j]) matches Err(GitError::NotFound(_))))
                    ==> match world.loose_again {
                    Ok(object) => result == Ok::<Option<T>, GitError>(Some(object)),
                    Err(GitError::NotFound(_)) => match world.loose->Err_0 {
                        GitError::NotFound(_) => result == Ok::<Option<T>, GitError>(None),
                        err => result == Err::<Option<T>, GitError>(err),
                    },
                    Err(err) => result == Err::<Option<T>, GitError>(err),
                }
            }
        }),
{
    reveal_with_fuel(read_from, 6);
    if world.loose is Err && alternates > 0 {
        let pending = match world.loose->Err_0 {
            GitError::NotFound(_) => None,
            err => Some(err),
        };
        lemma_read_alternates(world, 0, pending, alternates);
    }
}

/// A failure to tell whether a pack lists the object ends a read.
pub proof fn law_failed_listing_ends_the_read<T>(world: ReadWorld<T>, alternates: usize, err: GitError)
    requires
        world.listed == Err::<bool, GitError>(err),
    ensures
        read_from(world, ReadState::FindPack, alternates) == Err::<Option<T>, GitError>(err),
{
    reveal_with_fuel(read_from, 2);
}

proof fn lemma_header_alternates<T>(world: HeaderWorld<T>, from: usize, pending: Option<GitError>, alternates: usize)
    requires
        from < alternates,
        world.alternates.len() == alternates,
    ensures
        ({
            let result = header_from(world, HeaderState::Alternate(from, pending), alternates);
            let again = header_from(world, HeaderState::RetryLoose(pending), alternates);
            &&& pending is None ==> {
                &&& forall|k: int|
                    from <= k < alternates && (#[trigger] world.alternates[k]) != Ok::<Option<T>, GitError>(None) && (
                    forall|j: int| from <= j < k ==> (#[trigger] world.alternates[j]) == Ok::<Option<T>, GitError>(None))
                        ==> result == world.alternates[k]
                &&& (forall|j: int|
                    from <= j < alternates ==> (#[trigger] world.alternates[j]) == Ok::<Option<T>, GitError>(None))
                    ==> result == again
            }
            &&& pending is Some ==> {
                &&& forall|k: int|
                    from <= k < alternates && ((#[trigger] world.alternates[k]) matches Ok(Some(_))) && (forall|j: int|
                        from <= j < k ==> !((#[trigger] world.alternates[j]) matches Ok(Some(_)))) ==> result
                        == world.alternates[k]
                &&& (forall|j: int| from <= j < alternates ==> !((#[trigger] world.alternates[j]) matches Ok(Some(_))))
                    ==> result == again
            }
        }),
    decreases alternates - from,
{
    reveal_with_fuel(header_from, 3);
    let here = world.alternates[from as int];
    if from + 1 < alternates {
        lemma_header_alternates(world, (from + 1) as usize, pending, alternates);
    }
}

/// A header read hands on a header already decoded, else the answer of the
/// packs, the loose store, each alternate in turn and the loose store once more:
/// the first answer other than that the object is not there. A failure of the
/// packs is put off: any header found behind them stands, and where there is
/// none the read fails with it, whatever else failed.
pub proof fn law_header_read_takes_the_first_answer<T>(world: HeaderWorld<T>, alternates: usize)
    requires
        world.alternates.len() == alternates,
    ensures
        ({
            let result = header_from(world, HeaderState::Cached, alternates);
            let absent = Ok::<Option<T>, GitError>(None);
            if world.cached is Some {
                result == Ok::<Option<T>, GitError>(world.cached)
            } else if world.packed is Ok && world.packed != absent {
                result == world.packed
            } else if world.packed == absent {
                if world.loose != absent {
                    result == world.loose
                } else {
                    &&& forall|k: int|
                        0 <= k < alternates && (#[trigger] world.alternates[k]) != absent && (forall|j: int|
                            0 <= j < k ==> (#[trigger] world.alternates[j]) == absent) ==> result
                            == world.alternates[k]
                    &&& (forall|j: int| 0 <= j < alternates ==> (#[trigger] world.alternates[j]) == absent) ==> result
                        == world.loose_again
                }
            } else {
                if world.loose matches Ok(Some(_)) {
                    result == world.loose
                } else {
                    &&& forall|k: int|
                        0 <= k < alternates && ((#[trigger] world.alternates[k]) matches Ok(Some(_))) && (forall|j: int|
                            0 <= j < k ==> !((#[trigger] world.alternates[j]) matches Ok(Some(_)))) ==> result
                            == world.alternates[k]
                    &&& (forall|j: int| 0 <= j < alternates ==> !((#[trigger] world.alternates[j]) matches Ok(Some(_))))
                        ==> result == match world.loose_again {
                        Ok(Some(header)) => Ok::<Option<T>, GitError>(Some(header)),
                        _ => Err::<Option<T>, GitError>(world.packed->Err_0),
                    }
                }
            }
        }),
{
    reveal_with_fuel(header_from, 5);
    if alternates > 0 {
        lemma_header_alternates(world, 0, None, alternates);
        if world.packed is Err {
            lemma_header_alternates(world, 0, Some(world.packed->Err_0), alternates);
        }
    }
}

/// Where a search for a delta's base from a place on ends.
pub open spec fn base_from<T>(answers: Answers<BaseSource, T>, source: BaseSource, alternates: usize) -> Result<
    Option<T>,
    GitError,
>
    decreases
            match source {
                BaseSource::Cached => alternates + 3,
                BaseSource::Loose => alternates + 2,
                BaseSource::OtherPacks => alternates + 1,
                BaseSource::Alternate(i) => alternates - i,
            },
{
    match base_step(source, answers(source), alternates) {
        LookupStep::Finished(result) => result,
        LookupStep::Probe(next) => match (source, next) {
            (BaseSource::Alternate(i), BaseSource::Alternate(j)) => if i < j && j < alternates {
                base_from(answers, next, alternates)
            } else {
                Ok(None)
            },
            (BaseSource::Cached, BaseSource::Loose) => base_from(answers, next, alternates),
            (BaseSource::Loose, BaseSource::OtherPacks) => base_from(answers, next, alternates),
            (BaseSource::OtherPacks, BaseSource::Alternate(_)) => base_from(answers, next, alternates),
            _ => Ok(None),
        },
    }
}

proof fn lemma_base_alternates<T>(answers: Answers<BaseSource, T>, from: usize, alternates: usize)
    requires
        from < alternates,
    ensures
        forall|k: usize|
            from <= k < alternates && ((#[trigger] answers(BaseSource::Alternate(k))) matches Ok(Some(_))) && (forall|
                j: usize,
            |
                from <= j < k ==> !((#[trigger] answers(BaseSource::Alternate(j))) matches Ok(Some(_)))) ==> base_from(
                answers,
                BaseSource::Alternate(from),
                alternates,
            ) == answers(BaseSource::Alternate(k)),
        (forall|j: usize|
            from <= j < alternates ==> !((#[trigger] answers(BaseSource::Alternate(j))) matches Ok(Some(_))))
            ==> base_from(answers, BaseSource::Alternate(from), alternates) == Ok::<Option<T>, GitError>(None),
    decreases alternates - from,
{
    reveal_with_fuel(base_from, 3);
    let here = answers(BaseSource::Alternate(from));
    if !(here matches Ok(Some(_))) && from + 1 < alternates {
        lemma_base_alternates(answers, (from + 1) as usize, alternates);
    }
}

/// The base of a delta is the first found among the objects already decoded, in
/// the loose store, in the packs and in each alternate in turn. Only a failure
/// of the packs ends the search; any other is passed over.
pub proof fn law_base_is_the_first_found<T>(answers: Answers<BaseSource, T>, alternates: usize)
    ensures
        ({
            let result = base_from(answers, BaseSource::Cached, alternates);
            let packs = answers(BaseSource::OtherPacks);
            if answers(BaseSource::Cached) matches Ok(Some(_)) {
                result == answers(BaseSource::Cached)
            } else if answers(BaseSource::Loose) matches Ok(Some(_)) {
                result == answers(BaseSource::Loose)
            } else if packs != Ok::<Option<T>, GitError>(None) {
                result == packs
            } else {
                &&& forall|k: usize|
                    k < alternates && ((#[trigger] answers(BaseSource::Alternate(k))) matches Ok(Some(_))) && (forall|
                        j: usize,
                    |
                        j < k ==> !((#[trigger] answers(BaseSource::Alternate(j))) matches Ok(Some(_)))) ==> result
                        == answers(BaseSource::Alternate(k))
                &&& (forall|j: usize|
                    j < alternates ==> !((#[trigger] answers(BaseSource::Alternate(j))) matches Ok(Some(_)))) ==> result
                    == Ok::<Option<T>, GitError>(None)
            }
        }),
{
    reveal_with_fuel(base_from, 4);
    if alternates > 0 {
        lemma_base_alternates(answers, 0, alternates);
    }
}

/// What a search for the pack that holds an object does behind a place that
/// does not have it: it asks what is loaded of the multi-pack index and of the
/// packs, then, if there is a pack directory, the multi-pack index, its layers,
/// the packs, and the packs after a fresh scan, in that order. Any other answer
/// is its result.
pub proof fn law_packs_are_asked_in_order<T>(answer: Result<Option<T>, GitError>, has_pack_dir: bool)
    ensures
        answer != Ok::<Option<T>, GitError>(None) ==> forall|source: PackSource| #[trigger]
            pack_step(source, answer, has_pack_dir) == LookupStep::<PackSource, T>::Finished(answer),
        answer == Ok::<Option<T>, GitError>(None) ==> {
            let absent = LookupStep::<PackSource, T>::Finished(answer);
            let order = seq![
                PackSource::WarmMultiPackIndex,
                PackSource::WarmRegistry,
                PackSource::MultiPackIndex,
                PackSource::IncrementalLayers,
                PackSource::Registry,
                PackSource::RescannedRegistry,
            ];
            &&& forall|i: int|
                0 <= i < 5 ==> pack_step(#[trigger] order[i], answer, has_pack_dir) == if i == 1 && !has_pack_dir {
                    absent
                } else {
                    LookupStep::<PackSource, T>::Probe(order[i + 1])
                }
            &&& pack_step(order[5], answer, has_pack_dir) == absent
        },
{
}

/// Where a presence check from a place on ends.
pub open spec fn presence_from(
    answers: Answers<PresenceSource, ()>,
    source: PresenceSource,
    alternates: usize,
    refresh: bool,
) -> Result<Option<()>, GitError>
    decreases
            match source {
                PresenceSource::Loose => alternates + 4,
                PresenceSource::Packed => alternates + 3,
                PresenceSource::RescannedPacks => alternates + 2,
                PresenceSource::Alternate(i) => alternates - i,
                PresenceSource::RetryLoose => -1,
            },
{
    match presence_step(source, answers(source), alternates, refresh) {
        LookupStep::Finished(result) => result,
        LookupStep::Probe(next) => match (source, next) {
            (PresenceSource::Loose, PresenceSource::Packed) => presence_from(answers, next, alternates, refresh),
            (PresenceSource::Packed, PresenceSource::RescannedPacks) => presence_from(
                answers,
                next,
                alternates,
                refresh,
            ),
            (PresenceSource::Packed, PresenceSource::Alternate(_)) => presence_from(answers, next, alternates, refresh),
            (PresenceSource::Packed, PresenceSource::RetryLoose) => answers(next),
            (PresenceSource::RescannedPacks, PresenceSource::Alternate(_)) => presence_from(
                answers,
                next,
                alternates,
                refresh,
            ),
            (PresenceSource::RescannedPacks, PresenceSource::RetryLoose) => answers(next),
            (PresenceSource::Alternate(i), PresenceSource::Alternate(j)) => if i < j && j < alternates {
                presence_from(answers, next, alternates, refresh)
            } else {
                Ok(None)
            },
            (PresenceSource::Alternate(_), PresenceSource::RetryLoose) => answers(next),
            _ => Ok(None),
        },
    }
}

proof fn lemma_presence_alternates(
    answers: Answers<PresenceSource, ()>,
    from: usize,
    alternates: usize,
    refresh: bool,
)
    requires
        from < alternates,
    ensures
        ({
            let result = presence_from(answers, PresenceSource::Alternate(from), alternates, refresh);
            let absent = Ok::<Option<()>, GitError>(None);
            &&& forall|k: usize|
                from <= k < alternates && (#[trigger] answers(PresenceSource::Alternate(k))) != absent && (forall|
                    j: usize,
                |
                    from <= j < k ==> (#[trigger] answers(PresenceSource::Alternate(j))) == absent) ==> result
                    == answers(PresenceSource::Alternate(k))
            &&& (forall|j: usize|
                from <= j < alternates ==> (#[trigger] answers(PresenceSource::Alternate(j))) == absent) ==> result
                == if refresh {
                answers(PresenceSource::RetryLoose)
            } else {
                absent
            }
        }),
    decreases alternates - from,
{
    reveal_with_fuel(presence_from, 3);
    let here = answers(PresenceSource::Alternate(from));
    if here == Ok::<Option<()>, GitError>(None) && from + 1 < alternates {
        lemma_presence_alternates(answers, (from + 1) as usize, alternates, refresh);
    }
}

/// A presence check asks the loose store, the packs and each alternate in turn
/// and, where it may look again, the packs after a fresh scan ahead of the
/// alternates and the loose store behind them. The first answer other than that
/// the object is not there is its result.
pub proof fn law_presence_takes_the_first_answer(
    answers: Answers<PresenceSource, ()>,
    alternates: usize,
    refresh: bool,
)
    ensures
        ({
            let result = presence_from(answers, PresenceSource::Loose, alternates, refresh);
            let absent = Ok::<Option<()>, GitError>(None);
            if answers(PresenceSource::Loose) != absent {
                result == answers(PresenceSource::Loose)
            } else if answers(PresenceSource::Packed) != absent {
                result == answers(PresenceSource::Packed)
            } else if refresh && answers(PresenceSource::RescannedPacks) != absent {
                result == answers(PresenceSource::RescannedPacks)
            } else {
                &&& forall|k: usize|
                    k < alternates && (#[trigger] answers(PresenceSource::Alternate(k))) != absent && (forall|j: usize|
                        j < k ==> (#[trigger] answers(PresenceSource::Alternate(j))) == absent) ==> result == answers(
                        PresenceSource::Alternate(k),
                    )
                &&& (forall|j: usize|
                    j < alternates ==> (#[trigger] answers(PresenceSource::Alternate(j))) == absent) ==> result
                    == if refresh {
                    answers(PresenceSource::RetryLoose)
                } else {
                    absent
                }
            }
        }),
{
    reveal_with_fuel(presence_from, 4);
    if alternates > 0 {
        lemma_presence_alternates(answers, 0, alternates, refresh);
    }
}

} // verus!
