//! Decoding many records, collecting failures instead of stopping at them.

use vstd::prelude::*;
use crate::decode::{decoded_view, Failure};
use crate::document::{decode_text, decode_text_spec};
use crate::record::{
    error_views, record_views, CollaboratorRecord, DecodeError, ErrorKind, RecordModel,
};

verus! {

/// One source of a batch: its text, or why it could not be read.
#[derive(Clone, Debug, PartialEq, Eq)]
pub enum Source {
    Text(String),
    Unreadable(String),
}

/// What one source gives.
pub open spec fn source_result(s: Source) -> Result<(RecordModel, Seq<Failure>), Failure> {
    match s {
        Source::Text(t) => decode_text_spec(t@),
        Source::Unreadable(m) => Err((ErrorKind::IoFailure, m@)),
    }
}

/// The records of a batch in source order, and its failures: the failure of
/// each source that gives no record, and the warnings of each that does, in
/// source order.
pub open spec fn batch(srcs: Seq<Source>) -> (Seq<RecordModel>, Seq<Failure>)
    decreases srcs.len(),
{
    if srcs.len() == 0 {
        (Seq::empty(), Seq::empty())
    } else {
        let (rs, es) = batch(srcs.drop_last());
        match source_result(srcs.last()) {
            Ok((r, w)) => (rs.push(r), es + w),
            Err(e) => (rs, es.push(e)),
        }
    }
}

/// The records decoded from a batch, and the failures met on the way.
#[derive(Clone, Debug, PartialEq, Eq)]
pub struct BatchOutcome {
    pub records: Vec<CollaboratorRecord>,
    pub errors: Vec<DecodeError>,
}

impl View for BatchOutcome {
    type V = (Seq<RecordModel>, Seq<Failure>);

    open spec fn view(&self) -> (Seq<RecordModel>, Seq<Failure>) {
        (record_views(self.records@), error_views(self.errors@))
    }
}

/// Decodes every source; a source that fails adds its failure to the
/// errors and the batch goes on with the next one.
pub fn decode_many(sources: &Vec<Source>) -> (r: BatchOutcome)
    ensures
        r@ == batch(sources@),
{
    let mut records: Vec<CollaboratorRecord> = Vec::new();
    let mut errors: Vec<DecodeError> = Vec::new();
    let mut k: usize = 0;
    assert(sources@.subrange(0, 0) =~= Seq::<Source>::empty());
    assert(record_views(records@) =~= Seq::<RecordModel>::empty());
    assert(error_views(errors@) =~= Seq::<Failure>::empty());
    while k < sources.len()
        invariant
            k <= sources@.len(),
            batch(sources@.subrange(0, k as int)) == (
            record_views(records@),
            error_views(errors@),
            ),
        decreases sources@.len() - k,
    {
        let ghost next = sources@.subrange(0, k as int + 1);
        assert(next.drop_last() =~= sources@.subrange(0, k as int));
        assert(next.last() == sources@[k as int]);
        let ghost rs = record_views(records@);
        let ghost es = error_views(errors@);
        let result = match &sources[k] {
            Source::Text(t) => decode_text(t.as_str()),
            Source::Unreadable(m) => Err(DecodeError { kind: ErrorKind::IoFailure, detail: m.clone() }),
        };
        assert(decoded_view(result) == source_result(sources@[k as int]));
        match result {
            Ok(d) => {
                let mut warnings = d.warnings;
                let ghost w = error_views(warnings@);
                records.push(d.record);
                errors.append(&mut warnings);
                assert(record_views(records@) =~= rs.push(d.record@));
                assert(error_views(errors@) =~= es + w);
            },
            Err(e) => {
                errors.push(e);
                assert(record_views(records@) =~= rs);
                assert(error_views(errors@) =~= es.push(e@));
            },
        }
        k = k + 1;
    }
    assert(sources@.subrange(0, sources@.len() as int) =~= sources@);
    BatchOutcome { records, errors }
}

/// Decodes the sources of a directory listing; where the directory could
/// not be opened the whole batch fails at once, with no partial result.
pub fn decode_directory(listing: Result<Vec<Source>, String>) -> (r: Result<BatchOutcome, DecodeError>)
    ensures
        match listing {
            Err(m) => r matches Err(e) && e@ == (ErrorKind::IoFailure, m@),
            Ok(v) => r matches Ok(o) && o@ == batch(v@),
        },
{
    match listing {
        Err(m) => Err(DecodeError { kind: ErrorKind::IoFailure, detail: m }),
        Ok(v) => Ok(decode_many(&v)),
    }
}

} // verus!
