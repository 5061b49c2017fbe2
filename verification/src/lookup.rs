//! In which order the places that may hold an object are consulted, and what
//! each answer leads to.

use crate::error::GitError;
use vstd::prelude::*;

verus! {

/// A place that may hold an object.
#[derive(Debug, Clone, Copy, PartialEq, Eq, Structural)]
pub enum LookupSource {
    Loose,
    Packed,
    /// An alternate object directory, by its position.
    Alternate(usize),
    /// The loose store once more, after what was cached of it was dropped: a
    /// sibling may have written the object since.
    RetryLoose,
}

/// What a search does next.
pub enum LookupStep<S, T> {
    Probe(S),
    Finished(Result<Option<T>, GitError>),
}

/// The place to consult after one that does not have the object.
pub open spec fn source_after(source: LookupSource, alternates: usize) -> Option<LookupSource> {
    match source {
        LookupSource::Loose => Some(LookupSource::Packed),
        LookupSource::Packed => if alternates > 0 {
            Some(LookupSource::Alternate(0))
        } else {
            Some(LookupSource::RetryLoose)
        },
        LookupSource::Alternate(i) => if i + 1 < alternates {
            Some(LookupSource::Alternate((i + 1) as usize))
        } else {
            Some(LookupSource::RetryLoose)
        },
        LookupSource::RetryLoose => None,
    }
}

/// What a search does after an answer: it ends with what it found or with a
/// failure, and goes on where the object is not there.
pub open spec fn search_step<T>(
    source: LookupSource,
    answer: Result<Option<T>, GitError>,
    alternates: usize,
) -> LookupStep<LookupSource, T> {
    match answer {
        Ok(None) => match source_after(source, alternates) {
            Some(next) => LookupStep::Probe(next),
            None => LookupStep::Finished(Ok(None)),
        },
        other => LookupStep::Finished(other),
    }
}

/// What a search that began with the loose store does after an answer.
pub fn after_probe<T>(
    source: LookupSource,
    answer: Result<Option<T>, GitError>,
    alternates: usize,
) -> (step: LookupStep<LookupSource, T>)
    ensures
        step == search_step(source, answer, alternates),
{
    match answer {
        Ok(None) => match source {
            LookupSource::Loose => LookupStep::Probe(LookupSource::Packed),
            LookupSource::Packed => if alternates > 0 {
                LookupStep::Probe(LookupSource::Alternate(0))
            } else {
                LookupStep::Probe(LookupSource::RetryLoose)
            },
            LookupSource::Alternate(i) => if i < alternates && i + 1 < alternates {
                LookupStep::Probe(LookupSource::Alternate(i + 1))
            } else {
                LookupStep::Probe(LookupSource::RetryLoose)
            },
            LookupSource::RetryLoose => LookupStep::Finished(Ok(None)),
        },
        other => LookupStep::Finished(other),
    }
}

/// How far a place is from the end of a search.
pub open spec fn sources_left(source: LookupSource, alternates: usize) -> nat {
    match source {
        LookupSource::Loose => (alternates + 3) as nat,
        LookupSource::Packed => (alternates + 2) as nat,
        LookupSource::Alternate(i) => if i < alternates {
            (alternates - i + 1) as nat
        } else {
            2
        },
        LookupSource::RetryLoose => 1,
    }
}

/// What the places answer, each time they are consulted.
pub type Answers<S, T> = spec_fn(S) -> Result<Option<T>, GitError>;

/// Where a search from a place on ends, given what the places answer.
pub open spec fn search_from<T>(
    answers: Answers<LookupSource, T>,
    source: LookupSource,
    alternates: usize,
) -> Result<Option<T>, GitError>
    decreases sources_left(source, alternates),
{
    match search_step(source, answers(source), alternates) {
        LookupStep::Finished(result) => result,
        LookupStep::Probe(next) => search_from(answers, next, alternates),
    }
}

/// Whether no alternate from a position on has the object.
pub open spec fn alternates_miss<T>(answers: Answers<LookupSource, T>, from: int, alternates: usize) -> bool {
    forall|k: usize|
        from <= k < alternates ==> #[trigger] answers(LookupSource::Alternate(k)) == Ok::<Option<T>, GitError>(
            None,
        )
}

proof fn lemma_search_misses<T>(answers: Answers<LookupSource, T>, source: LookupSource, alternates: usize)
    ensures
        search_from(answers, source, alternates) == Ok::<Option<T>, GitError>(None) <==> {
            &&& answers(source) == Ok::<Option<T>, GitError>(None)
            &&& source == LookupSource::Loose ==> answers(LookupSource::Packed) == Ok::<Option<T>, GitError>(None)
            &&& match source {
                LookupSource::RetryLoose => true,
                LookupSource::Alternate(i) => alternates_miss(answers, i as int, alternates),
                _ => alternates_miss(answers, 0, alternates),
            }
            &&& answers(LookupSource::RetryLoose) == Ok::<Option<T>, GitError>(None)
        },
    decreases sources_left(source, alternates),
{
    if answers(source) == Ok::<Option<T>, GitError>(None) {
        if let Some(next) = source_after(source, alternates) {
            lemma_search_misses(answers, next, alternates);
            if let LookupSource::Alternate(i) = source {
                if i + 1 < alternates && alternates_miss(answers, i + 1, alternates) {
                    assert forall|k: usize| i <= k < alternates implies #[trigger] answers(
                        LookupSource::Alternate(k),
                    ) == Ok::<Option<T>, GitError>(None) by {
                        if k == i {
                            assert(answers(source) == Ok::<Option<T>, GitError>(None));
                        }
                    }
                }
            }
        }
    }
}

/// An object is reported absent only when no place has it: not the loose store,
/// not a pack, no alternate, and not the loose store a second time.
pub proof fn law_absent_means_nowhere<T>(answers: Answers<LookupSource, T>, alternates: usize)
    ensures
        search_from(answers, LookupSource::Loose, alternates) == Ok::<Option<T>, GitError>(None) <==> {
            &&& answers(LookupSource::Loose) == Ok::<Option<T>, GitError>(None)
            &&& answers(LookupSource::Packed) == Ok::<Option<T>, GitError>(None)
            &&& alternates_miss(answers, 0, alternates)
            &&& answers(LookupSource::RetryLoose) == Ok::<Option<T>, GitError>(None)
        },
{
    lemma_search_misses(answers, LookupSource::Loose, alternates);
}

/// What a full read consults next, and what it remembers.
pub enum ReadState {
    /// Which pack lists the object.
    FindPack,
    /// The copy in the pack that lists it.
    ReadPacked,
    /// The loose copy, after the packed one turned out corrupt.
    RescueLoose(GitError),
    /// The packs other than the one with the corrupt copy.
    RescueOtherPacks(GitError),
    /// An alternate, after the packed copy turned out corrupt.
    RescueAlternate(usize, GitError),
    Loose,
    /// Any pack, with the failure of the loose copy, if it is corrupt.
    Packed(Option<GitError>),
    Alternate(usize, Option<GitError>),
    /// The loose store once more, after what was cached of it was dropped.
    RetryLoose(Option<GitError>),
}

/// What came of consulting a place for a full read.
pub enum ReadEvent<T> {
    /// Whether a pack lists the object.
    Listed(bool),
    Object(T),
    Absent,
    Failed(GitError),
}

/// What a full read does next.
pub enum ReadStep<T> {
    Consult(ReadState),
    Return(T),
    Fail(GitError),
    /// No place has the object.
    Missing,
}

pub open spec fn is_not_found(err: GitError) -> bool {
    err is NotFound
}

/// What a full read does after consulting a place.
///
/// A packed copy comes first, so that a corrupt loose one does not shadow it.
/// Where the packed copy is corrupt, the loose copy, the other packs and the
/// alternates are tried before its failure is reported. Where no pack lists
/// the object, the loose store, the packs, the alternates and the loose store
/// once more are consulted; a corrupt loose copy is reported only when no
/// other copy is found.
pub open spec fn read_step<T>(state: ReadState, event: ReadEvent<T>, alternates: usize) -> ReadStep<T> {
    match event {
        ReadEvent::Object(object) => ReadStep::Return(object),
        ReadEvent::Listed(listed) => if listed {
            ReadStep::Consult(ReadState::ReadPacked)
        } else {
            ReadStep::Consult(ReadState::Loose)
        },
        ReadEvent::Absent => match state {
            ReadState::FindPack => ReadStep::Consult(ReadState::Loose),
            ReadState::ReadPacked => ReadStep::Consult(ReadState::Loose),
            ReadState::RescueLoose(err) => ReadStep::Consult(ReadState::RescueOtherPacks(err)),
            ReadState::RescueOtherPacks(err) => if alternates > 0 {
                ReadStep::Consult(ReadState::RescueAlternate(0, err))
            } else {
                ReadStep::Fail(err)
            },
            ReadState::RescueAlternate(i, err) => if i + 1 < alternates {
                ReadStep::Consult(ReadState::RescueAlternate((i + 1) as usize, err))
            } else {
                ReadStep::Fail(err)
            },
            ReadState::Loose => ReadStep::Consult(ReadState::Packed(None)),
            ReadState::Packed(loose_err) => if alternates > 0 {
                ReadStep::Consult(ReadState::Alternate(0, loose_err))
            } else {
                ReadStep::Consult(ReadState::RetryLoose(loose_err))
            },
            ReadState::Alternate(i, loose_err) => if i + 1 < alternates {
                ReadStep::Consult(ReadState::Alternate((i + 1) as usize, loose_err))
            } else {
                ReadStep::Consult(ReadState::RetryLoose(loose_err))
            },
            ReadState::RetryLoose(Some(err)) => ReadStep::Fail(err),
            ReadState::RetryLoose(None) => ReadStep::Missing,
        },
        ReadEvent::Failed(failure) => match state {
            ReadState::FindPack => ReadStep::Fail(failure),
            ReadState::ReadPacked => if is_not_found(failure) {
                ReadStep::Consult(ReadState::Loose)
            } else {
                ReadStep::Consult(ReadState::RescueLoose(failure))
            },
            ReadState::RescueLoose(err) => ReadStep::Consult(ReadState::RescueOtherPacks(err)),
            ReadState::RescueOtherPacks(_) => ReadStep::Fail(failure),
            ReadState::RescueAlternate(i, err) => if i + 1 < alternates {
                ReadStep::Consult(ReadState::RescueAlternate((i + 1) as usize, err))
            } else {
                ReadStep::Fail(err)
            },
            ReadState::Loose => if is_not_found(failure) {
                ReadStep::Consult(ReadState::Packed(None))
            } else {
                ReadStep::Consult(ReadState::Packed(Some(failure)))
            },
            ReadState::Packed(_) => ReadStep::Fail(failure),
            ReadState::Alternate(i, loose_err) => if !is_not_found(failure) {
                ReadStep::Fail(failure)
            } else if i + 1 < alternates {
                ReadStep::Consult(ReadState::Alternate((i + 1) as usize, loose_err))
            } else {
                ReadStep::Consult(ReadState::RetryLoose(loose_err))
            },
            ReadState::RetryLoose(loose_err) => if !is_not_found(failure) {
                ReadStep::Fail(failure)
            } else {
                match loose_err {
                    Some(err) => ReadStep::Fail(err),
                    None => ReadStep::Missing,
                }
            },
        },
    }
}

/// What a full read does after consulting a place.
pub fn read_object_raw<T>(state: ReadState, event: ReadEvent<T>, alternates: usize) -> (step: ReadStep<T>)
    ensures
        step == read_step(state, event, alternates),
{
    match event {
        ReadEvent::Object(object) => ReadStep::Return(object),
        ReadEvent::Listed(listed) => if listed {
            ReadStep::Consult(ReadState::ReadPacked)
        } else {
            ReadStep::Consult(ReadState::Loose)
        },
        ReadEvent::Absent => match state {
            ReadState::FindPack => ReadStep::Consult(ReadState::Loose),
            ReadState::ReadPacked => ReadStep::Consult(ReadState::Loose),
            ReadState::RescueLoose(err) => ReadStep::Consult(ReadState::RescueOtherPacks(err)),
            ReadState::RescueOtherPacks(err) => if alternates > 0 {
                ReadStep::Consult(ReadState::RescueAlternate(0, err))
            } else {
                ReadStep::Fail(err)
            },
            ReadState::RescueAlternate(i, err) => if i < alternates && i + 1 < alternates {
                ReadStep::Consult(ReadState::RescueAlternate(i + 1, err))
            } else {
                ReadStep::Fail(err)
            },
            ReadState::Loose => ReadStep::Consult(ReadState::Packed(None)),
            ReadState::Packed(loose_err) => if alternates > 0 {
                ReadStep::Consult(ReadState::Alternate(0, loose_err))
            } else {
                ReadStep::Consult(ReadState::RetryLoose(loose_err))
            },
            ReadState::Alternate(i, loose_err) => if i < alternates && i + 1 < alternates {
                ReadStep::Consult(ReadState::Alternate(i + 1, loose_err))
            } else {
                ReadStep::Consult(ReadState::RetryLoose(loose_err))
            },
            ReadState::RetryLoose(Some(err)) => ReadStep::Fail(err),
            ReadState::RetryLoose(None) => ReadStep::Missing,
        },
        ReadEvent::Failed(failure) => {
            let not_found = match &failure {
                GitError::NotFound(_) => true,
                _ => false,
            };
            match state {
                ReadState::FindPack => ReadStep::Fail(failure),
                ReadState::ReadPacked => if not_found {
                    ReadStep::Consult(ReadState::Loose)
                } else {
                    ReadStep::Consult(ReadState::RescueLoose(failure))
                },
                ReadState::RescueLoose(err) => ReadStep::Consult(ReadState::RescueOtherPacks(err)),
                ReadState::RescueOtherPacks(_) => ReadStep::Fail(failure),
                ReadState::RescueAlternate(i, err) => if i < alternates && i + 1 < alternates {
                    ReadStep::Consult(ReadState::RescueAlternate(i + 1, err))
                } else {
                    ReadStep::Fail(err)
                },
                ReadState::Loose => if not_found {
                    ReadStep::Consult(ReadState::Packed(None))
                } else {
                    ReadStep::Consult(ReadState::Packed(Some(failure)))
                },
                ReadState::Packed(_) => ReadStep::Fail(failure),
                ReadState::Alternate(i, loose_err) => if !not_found {
                    ReadStep::Fail(failure)
                } else if i < alternates && i + 1 < alternates {
                    ReadStep::Consult(ReadState::Alternate(i + 1, loose_err))
                } else {
                    ReadStep::Consult(ReadState::RetryLoose(loose_err))
                },
                ReadState::RetryLoose(loose_err) => if !not_found {
                    ReadStep::Fail(failure)
                } else {
                    match loose_err {
                        Some(err) => ReadStep::Fail(err),
                        None => ReadStep::Missing,
                    }
                },
            }
        },
    }
}

/// How far a read is from its end.
pub open spec fn read_left(state: ReadState, alternates: usize) -> nat {
    match state {
        ReadState::FindPack => (2 * alternates + 12) as nat,
        ReadState::ReadPacked => (2 * alternates + 11) as nat,
        ReadState::RescueLoose(_) => (alternates + 3) as nat,
        ReadState::RescueOtherPacks(_) => (alternates + 2) as nat,
        ReadState::RescueAlternate(i, _) => if i < alternates {
            (alternates - i) as nat
        } else {
            0
        },
        ReadState::Loose => (alternates + 10) as nat,
        ReadState::Packed(_) => (alternates + 9) as nat,
        ReadState::Alternate(i, _) => if i < alternates {
            (alternates - i + 5) as nat
        } else {
            5
        },
        ReadState::RetryLoose(_) => 4,
    }
}

/// What the places answer a read: whether a pack lists the object, and what
/// each copy reads as.
pub struct ReadWorld<T> {
    pub listed: Result<bool, GitError>,
    pub packed_copy: Result<T, GitError>,
    pub loose: Result<T, GitError>,
    pub other_packs: Result<Option<T>, GitError>,
    pub packed: Result<Option<T>, GitError>,
    pub alternates: Seq<Result<T, GitError>>,
    pub loose_again: Result<T, GitError>,
}

pub open spec fn read_event<T>(read: Result<T, GitError>) -> ReadEvent<T> {
    match read {
        Ok(object) => ReadEvent::Object(object),
        Err(err) => ReadEvent::Failed(err),
    }
}

pub open spec fn probe_event<T>(read: Result<Option<T>, GitError>) -> ReadEvent<T> {
    match read {
        Ok(Some(object)) => ReadEvent::Object(object),
        Ok(None) => ReadEvent::Absent,
        Err(err) => ReadEvent::Failed(err),
    }
}

/// What the place that a state stands for answers.
pub open spec fn world_event<T>(world: ReadWorld<T>, state: ReadState) -> ReadEvent<T> {
    match state {
        ReadState::FindPack => match world.listed {
            Ok(listed) => ReadEvent::Listed(listed),
            Err(err) => ReadEvent::Failed(err),
        },
        ReadState::ReadPacked => read_event(world.packed_copy),
        ReadState::RescueLoose(_) => read_event(world.loose),
        ReadState::RescueOtherPacks(_) => probe_event(world.other_packs),
        ReadState::RescueAlternate(i, _) => read_event(world.alternates[i as int]),
        ReadState::Loose => read_event(world.loose),
        ReadState::Packed(_) => probe_event(world.packed),
        ReadState::Alternate(i, _) => read_event(world.alternates[i as int]),
        ReadState::RetryLoose(_) => read_event(world.loose_again),
    }
}

/// How a read ends: with an object, with a failure, or with nothing found.
pub open spec fn read_from<T>(world: ReadWorld<T>, state: ReadState, alternates: usize) -> Result<
    Option<T>,
    GitError,
>
    decreases read_left(state, alternates),
{
    match read_step(state, world_event(world, state), alternates) {
        ReadStep::Return(object) => Ok(Some(object)),
        ReadStep::Fail(err) => Err(err),
        ReadStep::Missing => Ok(None),
        ReadStep::Consult(next) => if read_left(next, alternates) < read_left(state, alternates) {
            read_from(world, next, alternates)
        } else {
            Ok(None)
        },
    }
}

/// A packed copy that reads well is what the read returns, whatever became of
/// the loose copy.
pub proof fn law_packed_copy_is_not_shadowed<T>(world: ReadWorld<T>, alternates: usize)
    requires
        world.listed == Ok::<bool, GitError>(true),
        world.packed_copy is Ok,
    ensures
        read_from(world, ReadState::FindPack, alternates) == Ok::<Option<T>, GitError>(
            Some(world.packed_copy->Ok_0),
        ),
{
    reveal_with_fuel(read_from, 4);
}

/// A corrupt packed copy is not fatal while the loose copy reads well.
pub proof fn law_loose_copy_rescues_packed<T>(world: ReadWorld<T>, alternates: usize)
    requires
        world.listed == Ok::<bool, GitError>(true),
        world.packed_copy is Err,
        world.loose is Ok,
    ensures
        read_from(world, ReadState::FindPack, alternates) == Ok::<Option<T>, GitError>(
            Some(world.loose->Ok_0),
        ),
{
    reveal_with_fuel(read_from, 5);
}

proof fn lemma_rescue_alternates<T>(world: ReadWorld<T>, i: usize, alternates: usize, packed_err: GitError)
    requires
        i < alternates,
        world.alternates.len() == alternates,
    ensures
        match read_from(world, ReadState::RescueAlternate(i, packed_err), alternates) {
            Ok(Some(object)) => exists|k: int|
                i <= k < alternates && #[trigger] world.alternates[k] == Ok::<T, GitError>(object),
            Ok(None) => false,
            Err(err) => err == packed_err && forall|k: int|
                i <= k < alternates ==> (#[trigger] world.alternates[k]) is Err,
        },
    decreases alternates - i,
{
    if world.alternates[i as int] is Err && i + 1 < alternates {
        lemma_rescue_alternates(world, (i + 1) as usize, alternates, packed_err);
    }
    if world.alternates[i as int] is Ok {
        assert(world.alternates[i as int] == Ok::<T, GitError>(world.alternates[i as int]->Ok_0));
    }
}

/// The failure of a corrupt packed copy is reported only when neither the loose
/// store nor another pack nor an alternate has a copy that reads well.
pub proof fn law_packed_failure_means_no_good_copy<T>(world: ReadWorld<T>, alternates: usize)
    requires
        world.listed == Ok::<bool, GitError>(true),
        world.packed_copy is Err,
        !is_not_found(world.packed_copy->Err_0),
        world.other_packs is Ok,
        world.alternates.len() == alternates,
        read_from(world, ReadState::FindPack, alternates) is Err,
    ensures
        read_from(world, ReadState::FindPack, alternates) == Err::<Option<T>, GitError>(
            world.packed_copy->Err_0,
        ),
        world.loose is Err,
        world.other_packs == Ok::<Option<T>, GitError>(None),
        forall|k: int| 0 <= k < alternates ==> (#[trigger] world.alternates[k]) is Err,
{
    let packed_err = world.packed_copy->Err_0;
    reveal_with_fuel(read_from, 5);
    if alternates > 0 {
        lemma_rescue_alternates(world, 0, alternates, packed_err);
    }
}

proof fn lemma_plain_alternates<T>(
    world: ReadWorld<T>,
    i: usize,
    alternates: usize,
    loose_err: Option<GitError>,
)
    requires
        i < alternates,
        world.alternates.len() == alternates,
        read_from(world, ReadState::Alternate(i, loose_err), alternates) == Ok::<Option<T>, GitError>(None),
    ensures
        loose_err is None,
        world.loose_again is Err,
        forall|k: int|
            i <= k < alternates ==> (#[trigger] world.alternates[k]) is Err && is_not_found(
                world.alternates[k]->Err_0,
            ),
    decreases alternates - i,
{
    reveal_with_fuel(read_from, 3);
    if i + 1 < alternates {
        lemma_plain_alternates(world, (i + 1) as usize, alternates, loose_err);
    }
}

/// An object is reported missing only when no place has a copy of it, not even
/// a corrupt one.
pub proof fn law_missing_means_nowhere<T>(world: ReadWorld<T>, alternates: usize)
    requires
        world.alternates.len() == alternates,
        read_from(world, ReadState::FindPack, alternates) == Ok::<Option<T>, GitError>(None),
    ensures
        world.listed == Ok::<bool, GitError>(true) ==> world.packed_copy is Err && is_not_found(
            world.packed_copy->Err_0,
        ),
        world.loose is Err,
        is_not_found(world.loose->Err_0),
        world.packed == Ok::<Option<T>, GitError>(None),
        forall|k: int|
            0 <= k < alternates ==> (#[trigger] world.alternates[k]) is Err && is_not_found(
                world.alternates[k]->Err_0,
            ),
        world.loose_again is Err,
{
    reveal_with_fuel(read_from, 6);
    if world.listed == Ok::<bool, GitError>(true) && world.packed_copy is Err && !is_not_found(
        world.packed_copy->Err_0,
    ) && alternates > 0 {
        lemma_rescue_alternates(world, 0, alternates, world.packed_copy->Err_0);
    }
    if alternates > 0 && world.loose is Err {
        let loose_err = if is_not_found(world.loose->Err_0) {
            None
        } else {
            Some(world.loose->Err_0)
        };
        if read_from(world, ReadState::Alternate(0, loose_err), alternates) == Ok::<Option<T>, GitError>(None) {
            lemma_plain_alternates(world, 0, alternates, loose_err);
        }
    }
}

/// What a header read consults next, with the failure of the packed copy, if it
/// had one.
pub enum HeaderState {
    /// The objects already decoded.
    Cached,
    Packed,
    Loose(Option<GitError>),
    Alternate(usize, Option<GitError>),
    /// The loose store once more, after what was cached of it was dropped.
    RetryLoose(Option<GitError>),
}

/// What a header read does next.
pub enum HeaderStep<T> {
    Consult(HeaderState),
    Finished(Result<Option<T>, GitError>),
}

/// What a header read consults behind the loose store.
pub open spec fn header_after_loose(pending: Option<GitError>, next: int, alternates: usize) -> HeaderState {
    if next < alternates {
        HeaderState::Alternate(next as usize, pending)
    } else {
        HeaderState::RetryLoose(pending)
    }
}

/// What a header read does after consulting a place. A packed copy comes
/// first; where it cannot be read, its failure is kept, and reported only when
/// no other place has the object. While a failure is kept, those of other
/// places do not count.
pub open spec fn header_step<T>(
    state: HeaderState,
    answer: Result<Option<T>, GitError>,
    alternates: usize,
) -> HeaderStep<T> {
    match answer {
        Ok(Some(header)) => HeaderStep::Finished(Ok(Some(header))),
        Ok(None) => match state {
            HeaderState::Cached => HeaderStep::Consult(HeaderState::Packed),
            HeaderState::Packed => HeaderStep::Consult(HeaderState::Loose(None)),
            HeaderState::Loose(pending) => HeaderStep::Consult(header_after_loose(pending, 0, alternates)),
            HeaderState::Alternate(i, pending) => HeaderStep::Consult(
                header_after_loose(pending, i + 1, alternates),
            ),
            HeaderState::RetryLoose(None) => HeaderStep::Finished(Ok(None)),
            HeaderState::RetryLoose(Some(err)) => HeaderStep::Finished(Err(err)),
        },
        Err(failure) => match state {
            HeaderState::Cached => HeaderStep::Finished(Err(failure)),
            HeaderState::Packed => HeaderStep::Consult(HeaderState::Loose(Some(failure))),
            HeaderState::Loose(Some(err)) => HeaderStep::Consult(
                header_after_loose(Some(err), 0, alternates),
            ),
            HeaderState::Alternate(i, Some(err)) => HeaderStep::Consult(
                header_after_loose(Some(err), i + 1, alternates),
            ),
            HeaderState::RetryLoose(Some(err)) => HeaderStep::Finished(Err(err)),
            _ => HeaderStep::Finished(Err(failure)),
        },
    }
}

fn consult_after_loose(pending: Option<GitError>, next: usize, alternates: usize) -> (state: HeaderState)
    ensures
        state == header_after_loose(pending, next as int, alternates),
{
    if next < alternates {
        HeaderState::Alternate(next, pending)
    } else {
        HeaderState::RetryLoose(pending)
    }
}

/// The position behind an alternate.
fn behind(i: usize, alternates: usize) -> (next: usize)
    ensures
        i < alternates ==> next == i + 1,
        i >= alternates ==> next >= alternates,
{
    if i < alternates {
        i + 1
    } else {
        alternates
    }
}

/// What a header read does after consulting a place.
pub fn read_object_header_raw<T>(
    state: HeaderState,
    answer: Result<Option<T>, GitError>,
    alternates: usize,
) -> (step: HeaderStep<T>)
    ensures
        step == header_step(state, answer, alternates),
{
    match answer {
        Ok(Some(header)) => HeaderStep::Finished(Ok(Some(header))),
        Ok(None) => match state {
            HeaderState::Cached => HeaderStep::Consult(HeaderState::Packed),
            HeaderState::Packed => HeaderStep::Consult(HeaderState::Loose(None)),
            HeaderState::Loose(pending) => HeaderStep::Consult(consult_after_loose(pending, 0, alternates)),
            HeaderState::Alternate(i, pending) => HeaderStep::Consult(
                consult_after_loose(pending, behind(i, alternates), alternates),
            ),
            HeaderState::RetryLoose(None) => HeaderStep::Finished(Ok(None)),
            HeaderState::RetryLoose(Some(err)) => HeaderStep::Finished(Err(err)),
        },
        Err(failure) => match state {
            HeaderState::Cached => HeaderStep::Finished(Err(failure)),
            HeaderState::Packed => HeaderStep::Consult(HeaderState::Loose(Some(failure))),
            HeaderState::Loose(Some(err)) => HeaderStep::Consult(
                consult_after_loose(Some(err), 0, alternates),
            ),
            HeaderState::Alternate(i, Some(err)) => HeaderStep::Consult(
                consult_after_loose(Some(err), behind(i, alternates), alternates),
            ),
            HeaderState::RetryLoose(Some(err)) => HeaderStep::Finished(Err(err)),
            _ => HeaderStep::Finished(Err(failure)),
        },
    }
}

/// What the places answer a header read.
pub struct HeaderWorld<T> {
    pub cached: Option<T>,
    pub packed: Result<Option<T>, GitError>,
    pub loose: Result<Option<T>, GitError>,
    pub alternates: Seq<Result<Option<T>, GitError>>,
    pub loose_again: Result<Option<T>, GitError>,
}

pub open spec fn header_answer<T>(world: HeaderWorld<T>, state: HeaderState) -> Result<Option<T>, GitError> {
    match state {
        HeaderState::Cached => Ok(world.cached),
        HeaderState::Packed => world.packed,
        HeaderState::Loose(_) => world.loose,
        HeaderState::Alternate(i, _) => world.alternates[i as int],
        HeaderState::RetryLoose(_) => world.loose_again,
    }
}

pub open spec fn header_left(state: HeaderState, alternates: usize) -> nat {
    match state {
        HeaderState::Cached => (alternates + 5) as nat,
        HeaderState::Packed => (alternates + 4) as nat,
        HeaderState::Loose(_) => (alternates + 3) as nat,
        HeaderState::Alternate(i, _) => if i < alternates {
            (alternates - i + 1) as nat
        } else {
            1
        },
        HeaderState::RetryLoose(_) => 0,
    }
}

/// How a header read ends.
pub open spec fn header_from<T>(world: HeaderWorld<T>, state: HeaderState, alternates: usize) -> Result<
    Option<T>,
    GitError,
>
    decreases header_left(state, alternates),
{
    match header_step(state, header_answer(world, state), alternates) {
        HeaderStep::Finished(result) => result,
        HeaderStep::Consult(next) => if header_left(next, alternates) < header_left(state, alternates) {
            header_from(world, next, alternates)
        } else {
            Ok(None)
        },
    }
}

/// A packed header that reads well is returned, whatever the loose copy is.
pub proof fn law_packed_header_is_not_shadowed<T>(world: HeaderWorld<T>, alternates: usize)
    requires
        world.cached is None,
        world.packed matches Ok(Some(_)),
    ensures
        header_from(world, HeaderState::Cached, alternates) == world.packed,
{
    reveal_with_fuel(header_from, 3);
}

/// A loose copy that reads well survives a failure of the packs.
pub proof fn law_loose_header_survives_pack_failure<T>(world: HeaderWorld<T>, alternates: usize)
    requires
        world.cached is None,
        world.packed is Err,
        world.loose matches Ok(Some(_)),
    ensures
        header_from(world, HeaderState::Cached, alternates) == world.loose,
{
    reveal_with_fuel(header_from, 4);
}

proof fn lemma_pending_failure<T>(world: HeaderWorld<T>, state: HeaderState, pending: GitError, alternates: usize)
    requires
        world.alternates.len() == alternates,
        match state {
            HeaderState::Loose(kept) => kept == Some(pending),
            HeaderState::Alternate(i, kept) => kept == Some(pending) && i < alternates,
            HeaderState::RetryLoose(kept) => kept == Some(pending),
            _ => false,
        },
    ensures
        match header_from(world, state, alternates) {
            Ok(Some(_)) => true,
            Ok(None) => false,
            Err(err) => err == pending,
        },
    decreases header_left(state, alternates),
{
    if let HeaderStep::Consult(next) = header_step(state, header_answer(world, state), alternates) {
        lemma_pending_failure(world, next, pending, alternates);
    }
}

/// The failure of a packed copy is never flattened into a missing object: the
/// read returns a header from elsewhere or that failure.
pub proof fn law_pack_failure_is_kept<T>(world: HeaderWorld<T>, alternates: usize)
    requires
        world.cached is None,
        world.packed is Err,
        world.alternates.len() == alternates,
    ensures
        match header_from(world, HeaderState::Cached, alternates) {
            Ok(Some(_)) => true,
            Ok(None) => false,
            Err(err) => err == world.packed->Err_0,
        },
{
    reveal_with_fuel(header_from, 3);
    lemma_pending_failure(world, HeaderState::Loose(Some(world.packed->Err_0)), world.packed->Err_0, alternates);
}

/// Where the base of a delta is sought when its own pack cannot give it.
#[derive(Debug, Clone, Copy, PartialEq, Eq, Structural)]
pub enum BaseSource {
    Cached,
    Loose,
    OtherPacks,
    Alternate(usize),
}

/// What the search for a delta's base does after an answer. Failures of the
/// loose store and of alternates are passed over; that of the packs is not.
pub open spec fn base_step<T>(
    source: BaseSource,
    answer: Result<Option<T>, GitError>,
    alternates: usize,
) -> LookupStep<BaseSource, T> {
    match answer {
        Ok(Some(object)) => LookupStep::Finished(Ok(Some(object))),
        _ => match source {
            BaseSource::Cached => LookupStep::Probe(BaseSource::Loose),
            BaseSource::Loose => LookupStep::Probe(BaseSource::OtherPacks),
            BaseSource::OtherPacks => if answer is Err {
                LookupStep::Finished(answer)
            } else if alternates > 0 {
                LookupStep::Probe(BaseSource::Alternate(0))
            } else {
                LookupStep::Finished(Ok(None))
            },
            BaseSource::Alternate(i) => if i + 1 < alternates {
                LookupStep::Probe(BaseSource::Alternate((i + 1) as usize))
            } else {
                LookupStep::Finished(Ok(None))
            },
        },
    }
}

/// What the search for a delta's base does after an answer.
pub fn read_ofs_delta_base_from_other_sources<T>(
    source: BaseSource,
    answer: Result<Option<T>, GitError>,
    alternates: usize,
) -> (step: LookupStep<BaseSource, T>)
    ensures
        step == base_step(source, answer, alternates),
{
    match answer {
        Ok(Some(object)) => LookupStep::Finished(Ok(Some(object))),
        other => match source {
            BaseSource::Cached => LookupStep::Probe(BaseSource::Loose),
            BaseSource::Loose => LookupStep::Probe(BaseSource::OtherPacks),
            BaseSource::OtherPacks => match other {
                Err(err) => LookupStep::Finished(Err(err)),
                _ => if alternates > 0 {
                    LookupStep::Probe(BaseSource::Alternate(0))
                } else {
                    LookupStep::Finished(Ok(None))
                },
            },
            BaseSource::Alternate(i) => if i < alternates && i + 1 < alternates {
                LookupStep::Probe(BaseSource::Alternate(i + 1))
            } else {
                LookupStep::Finished(Ok(None))
            },
        },
    }
}

/// Where a pack that lists an object is sought.
#[derive(Debug, Clone, Copy, PartialEq, Eq, Structural)]
pub enum PackSource {
    /// The multi-pack index, if it is already loaded.
    WarmMultiPackIndex,
    /// The packs, if their directory is already scanned.
    WarmRegistry,
    MultiPackIndex,
    /// The layers of an incremental multi-pack index, the newest first.
    IncrementalLayers,
    /// The packs, scanned if need be.
    Registry,
    /// The packs after a fresh scan, if that shows other packs.
    RescannedRegistry,
}

/// What the search for a pack does after an answer: what is loaded comes first;
/// then, if there is a pack directory, the multi-pack index, the packs, and
/// after a complete miss the packs once more, so that one written since the
/// last scan is found.
pub open spec fn pack_step<T>(
    source: PackSource,
    answer: Result<Option<T>, GitError>,
    has_pack_dir: bool,
) -> LookupStep<PackSource, T> {
    match answer {
        Ok(None) => match source {
            PackSource::WarmMultiPackIndex => LookupStep::Probe(PackSource::WarmRegistry),
            PackSource::WarmRegistry => if has_pack_dir {
                LookupStep::Probe(PackSource::MultiPackIndex)
            } else {
                LookupStep::Finished(Ok(None))
            },
            PackSource::MultiPackIndex => LookupStep::Probe(PackSource::IncrementalLayers),
            PackSource::IncrementalLayers => LookupStep::Probe(PackSource::Registry),
            PackSource::Registry => LookupStep::Probe(PackSource::RescannedRegistry),
            PackSource::RescannedRegistry => LookupStep::Finished(Ok(None)),
        },
        other => LookupStep::Finished(other),
    }
}

/// What the search for a pack does after an answer.
pub fn find_pack_containing<T>(
    source: PackSource,
    answer: Result<Option<T>, GitError>,
    has_pack_dir: bool,
) -> (step: LookupStep<PackSource, T>)
    ensures
        step == pack_step(source, answer, has_pack_dir),
{
    match answer {
        Ok(None) => match source {
            PackSource::WarmMultiPackIndex => LookupStep::Probe(PackSource::WarmRegistry),
            PackSource::WarmRegistry => if has_pack_dir {
                LookupStep::Probe(PackSource::MultiPackIndex)
            } else {
                LookupStep::Finished(Ok(None))
            },
            PackSource::MultiPackIndex => LookupStep::Probe(PackSource::IncrementalLayers),
            PackSource::IncrementalLayers => LookupStep::Probe(PackSource::Registry),
            PackSource::Registry => LookupStep::Probe(PackSource::RescannedRegistry),
            PackSource::RescannedRegistry => LookupStep::Finished(Ok(None)),
        },
        other => LookupStep::Finished(other),
    }
}

} // verus!
