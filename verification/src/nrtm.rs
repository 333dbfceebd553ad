//! Following a data source over NRTM: the request that opens a session, and
//! what each message of the session does to the store.
use vstd::prelude::*;
use crate::store::{import_accepted, store_after_import, DataSource, DataStore};
use crate::text::{decimal, push_decimal, push_str};

verus! {

/// How a data source is followed.
pub enum NRTMRefreshMode {
    /// One connection kept open, over which updates keep coming.
    SingleLongLastingConnection,
    /// A new connection for each refresh, on a schedule.
    ScheduledMultipleConnection,
}

/// What the NRTM stream hands over next.
pub enum NrtmEvent {
    /// The stream has ended.
    EndOfStream,
    /// An NRTM version 2 update, which is not followed.
    Version2Update,
    /// An object added at `serial`.
    Add { serial: u64, rpsl: String },
    /// An object deleted at `serial`.
    Delete { serial: u64 },
    /// A message that did not parse; the stream goes on.
    ParserError,
    /// A message longer than the longest one accepted; the stream goes on.
    ChunkTooLong,
    /// An error after which the stream cannot go on.
    Fatal,
}

/// What came of one NRTM event.
pub enum NrtmOutcome {
    /// The stream has ended: the session is over.
    Finished,
    /// The object was imported and its serial recorded.
    Imported { serial: u64 },
    /// The store refused the object; the serial stays as it was.
    ImportRefused { serial: u64, error: String },
    /// A deletion, which the store does not carry out.
    DeletionNotSupported { serial: u64 },
    /// Nothing to do for this event.
    Ignored,
    /// A recoverable error in the stream.
    StreamError,
    /// An error after which the session cannot go on.
    Abort,
}

/// One NRTM session for a data source.
pub struct NrtmSession {
    pub data_source_name: String,
    pub mode: NRTMRefreshMode,
}

impl NrtmSession {
    /// The request for all updates from `serial` on: `-kg` where the
    /// connection is kept open, `-g` otherwise.
    pub open spec fn request_text(&self, serial: u64) -> Seq<char> {
        "-"@ + match self.mode {
            NRTMRefreshMode::SingleLongLastingConnection => "k"@,
            NRTMRefreshMode::ScheduledMultipleConnection => Seq::<char>::empty(),
        } + "g "@ + self.data_source_name@ + ":3:"@ + decimal(serial as nat) + "-LAST\n"@
    }

    /// The request for all updates from `serial` on.
    pub fn format_request(&self, serial: u64) -> (r: String)
        ensures
            r@ == self.request_text(serial),
    {
        let mut r = String::new();
        push_str(&mut r, "-");
        match self.mode {
            NRTMRefreshMode::SingleLongLastingConnection => push_str(&mut r, "k"),
            NRTMRefreshMode::ScheduledMultipleConnection => {},
        }
        push_str(&mut r, "g ");
        push_str(&mut r, self.data_source_name.as_str());
        push_str(&mut r, ":3:");
        push_decimal(&mut r, serial as u128);
        push_str(&mut r, "-LAST\n");
        assert(r@ =~= self.request_text(serial));
        r
    }

    /// The request that opens the session, asking from the current serial of
    /// the data source; none where the data source is not registered.
    pub fn opening_request(&self, store: &DataStore) -> (r: Option<String>)
        ensures
            match r {
                Some(text) => store.data_sources().contains_key(self.data_source_name@)
                    && text@ == self.request_text(store.data_sources()[self.data_source_name@].current_serial),
                None => !store.data_sources().contains_key(self.data_source_name@),
            },
    {
        match store.data_source(&self.data_source_name) {
            Some(ds) => Some(self.format_request(ds.current_serial)),
            None => None,
        }
    }

    /// Carries out one event of the stream on `store`. An added object is
    /// imported into the session's data source and, where the store takes it,
    /// its serial becomes the data source's current serial; nothing else
    /// changes the store.
    pub fn handle(&self, store: &mut DataStore, event: NrtmEvent) -> (r: NrtmOutcome)
        ensures
            match event {
                NrtmEvent::Add { serial, rpsl } => {
                    &&& final(store).as_sets() == store_after_import(old(store), self.data_source_name@, rpsl@).0
                    &&& final(store).routes() == store_after_import(old(store), self.data_source_name@, rpsl@).1
                    &&& if import_accepted(rpsl@) {
                        &&& r == NrtmOutcome::Imported { serial }
                        &&& final(store).data_sources() == old(store).data_sources().insert(
                            self.data_source_name@,
                            if old(store).data_sources().contains_key(self.data_source_name@) {
                                DataSource {
                                    current_serial: serial,
                                    priority: old(store).data_sources()[self.data_source_name@].priority,
                                }
                            } else {
                                DataSource { current_serial: 0, priority: 0 }
                            },
                        )
                    } else {
                        &&& r matches NrtmOutcome::ImportRefused { serial: s, .. } && s == serial
                        &&& final(store).data_sources() == old(store).data_sources()
                    }
                },
                _ => {
                    &&& final(store).data_sources() == old(store).data_sources()
                    &&& final(store).as_sets() == old(store).as_sets()
                    &&& final(store).routes() == old(store).routes()
                    &&& r == match event {
                        NrtmEvent::EndOfStream => NrtmOutcome::Finished,
                        NrtmEvent::Delete { serial } => NrtmOutcome::DeletionNotSupported { serial },
                        NrtmEvent::ParserError => NrtmOutcome::StreamError,
                        NrtmEvent::ChunkTooLong => NrtmOutcome::StreamError,
                        NrtmEvent::Fatal => NrtmOutcome::Abort,
                        _ => NrtmOutcome::Ignored,
                    }
                },
            },
    {
        match event {
            NrtmEvent::EndOfStream => NrtmOutcome::Finished,
            NrtmEvent::Version2Update => NrtmOutcome::Ignored,
            NrtmEvent::Add { serial, rpsl } => {
                match store.import_object(self.data_source_name.clone(), rpsl) {
                    Ok(()) => {
                        store.record_serial(self.data_source_name.clone(), serial);
                        NrtmOutcome::Imported { serial }
                    },
                    Err(error) => NrtmOutcome::ImportRefused { serial, error },
                }
            },
            NrtmEvent::Delete { serial } => NrtmOutcome::DeletionNotSupported { serial },
            NrtmEvent::ParserError => NrtmOutcome::StreamError,
            NrtmEvent::ChunkTooLong => NrtmOutcome::StreamError,
            NrtmEvent::Fatal => NrtmOutcome::Abort,
        }
    }
}

} // verus!
