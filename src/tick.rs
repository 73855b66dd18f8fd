use vstd::prelude::*;
use crate::changelog::{changes, packages_view, refreshed, ChangelogGenerator};
use crate::decode::{decode_response, decode_spec, DecodeError, Json, ResponseShape};
use crate::changelog::PackageView;
use crate::store::VersionStore;

verus! {

impl ChangelogGenerator {
    /// Decodes a response document and diffs it against the store. The
    /// older object shape is taken only when `accept_legacy` says so. On a
    /// rejected document nothing changes and the error is returned.
    pub fn parse_response(&mut self, doc: &Json, store: &VersionStore, accept_legacy: bool) -> (r: Result<
        VersionStore,
        DecodeError,
    >)
        requires
            store.wf(),
        ensures
            match r {
                Ok(s) => match decode_spec(*doc) {
                    Ok((shape, ps)) => {
                        &&& (shape == ResponseShape::Legacy ==> accept_legacy)
                        &&& final(self).wf()
                        &&& final(self).entries_spec() == changes(ps, store@)
                        &&& s.wf()
                        &&& s@ == refreshed(ps, store@)
                    },
                    Err(_) => false,
                },
                Err(e) => {
                    &&& (decode_spec(*doc) == Err::<(ResponseShape, Seq<PackageView>), DecodeError>(e)
                        || (e == DecodeError::LegacyShape && !accept_legacy && decode_spec(
                        *doc,
                    ) matches Ok((ResponseShape::Legacy, _))))
                    &&& *final(self) == *old(self)
                },
            },
    {
        match decode_response(doc) {
            Ok((ResponseShape::Legacy, _)) if !accept_legacy => Err(DecodeError::LegacyShape),
            Ok((_, packages)) => Ok(self.generate_changelog(&packages, store)),
            Err(e) => Err(e),
        }
    }
}

/// One check's response turned into its changelog and the refreshed store.
pub fn process_server_response(doc: &Json, store: &VersionStore, accept_legacy: bool) -> (r: Result<
    (ChangelogGenerator, VersionStore),
    DecodeError,
>)
    requires
        store.wf(),
    ensures
        match r {
            Ok((g, s)) => match decode_spec(*doc) {
                Ok((shape, ps)) => {
                    &&& (shape == ResponseShape::Legacy ==> accept_legacy)
                    &&& g.wf()
                    &&& g.entries_spec() == changes(ps, store@)
                    &&& s.wf()
                    &&& s@ == refreshed(ps, store@)
                },
                Err(_) => false,
            },
            Err(e) => decode_spec(*doc) == Err::<(ResponseShape, Seq<PackageView>), DecodeError>(e)
                || (e == DecodeError::LegacyShape && !accept_legacy && decode_spec(*doc) matches Ok(
                (ResponseShape::Legacy, _),
            )),
        },
{
    let mut g = ChangelogGenerator::new();
    match g.parse_response(doc, store, accept_legacy) {
        Ok(s) => Ok((g, s)),
        Err(e) => Err(e),
    }
}

/// What the scheduler does once a check has finished.
#[derive(Debug, Clone, Copy, PartialEq, Eq)]
pub enum NextStep {
    /// Sleep this many seconds, then check again.
    Sleep(u64),
    /// Stop; `failed` says whether the single check failed.
    Finish { failed: bool },
}

pub open spec fn hours_in_seconds(h: u64) -> u64 {
    if h as int * 3600 <= u64::MAX as int {
        (h * 3600) as u64
    } else {
        u64::MAX
    }
}

/// Repeating mode sleeps for the interval whatever the outcome; single-shot
/// mode stops and hands the outcome on.
pub fn after_tick(interval_hours: Option<u64>, failed: bool) -> (r: NextStep)
    ensures
        match interval_hours {
            Some(h) => r == NextStep::Sleep(hours_in_seconds(h)),
            None => r == (NextStep::Finish { failed }),
        },
{
    match interval_hours {
        Some(h) => {
            if h <= u64::MAX / 3600 {
                NextStep::Sleep(h * 3600)
            } else {
                NextStep::Sleep(u64::MAX)
            }
        },
        None => NextStep::Finish { failed },
    }
}

} // verus!
