//! Readers of sources, and what they read.

use std::collections::HashMap;

use vstd::prelude::*;

use crate::common::value::StreamChunk;

verus! {

/// [`StreamChunkWithState`] returns stream chunk together with offset for each split. In the
/// current design, one connector source can have multiple split reader. The keys are unique
/// `split_id` and values are the latest offset for each split.
#[derive(Clone, Debug)]
pub struct StreamChunkWithState {
    pub chunk: StreamChunk,
    pub split_offset_mapping: Option<HashMap<String, String>>,
}

/// The `split_offset_mapping` field is unused for the table source, so we implement `From` for it.
impl From<StreamChunk> for StreamChunkWithState {
    fn from(chunk: StreamChunk) -> (result: StreamChunkWithState) {
        StreamChunkWithState { chunk, split_offset_mapping: None }
    }
}

impl vstd::std_specs::convert::FromSpecImpl<StreamChunk> for StreamChunkWithState {
    open spec fn obeys_from_spec() -> bool {
        true
    }

    open spec fn from_spec(chunk: StreamChunk) -> StreamChunkWithState {
        StreamChunkWithState { chunk, split_offset_mapping: None }
    }
}

/// A source: a table, or a connector to an outside system.
#[derive(Debug)]
pub enum SourceImpl<T, C> {
    Table(T),
    Connector(C),
}

impl<T, C> SourceImpl<T, C> {
    /// The table, if this is one.
    pub fn as_table(&self) -> (result: Option<&T>)
        ensures
            match result {
                Some(table) => *self == SourceImpl::<T, C>::Table(*table),
                None => *self is Connector,
            },
    {
        match self {
            SourceImpl::Table(table) => Some(table),
            SourceImpl::Connector(_) => None,
        }
    }

    /// The connector, if this is one.
    pub fn as_connector(&self) -> (result: Option<&C>)
        ensures
            match result {
                Some(connector) => *self == SourceImpl::<T, C>::Connector(*connector),
                None => *self is Table,
            },
    {
        match self {
            SourceImpl::Table(_) => None,
            SourceImpl::Connector(connector) => Some(connector),
        }
    }

    /// The table, if this is one, to be changed.
    pub fn as_table_mut(&mut self) -> (result: Option<&mut T>)
        ensures
            match result {
                Some(table) => {
                    &&& *old(self) == SourceImpl::<T, C>::Table(*table)
                    &&& *final(self) == SourceImpl::<T, C>::Table(*final(table))
                },
                None => *old(self) is Connector && *final(self) == *old(self),
            },
    {
        match self {
            SourceImpl::Table(table) => Some(table),
            SourceImpl::Connector(_) => None,
        }
    }

    /// The connector, if this is one, to be changed.
    pub fn as_connector_mut(&mut self) -> (result: Option<&mut C>)
        ensures
            match result {
                Some(connector) => {
                    &&& *old(self) == SourceImpl::<T, C>::Connector(*connector)
                    &&& *final(self) == SourceImpl::<T, C>::Connector(*final(connector))
                },
                None => *old(self) is Table && *final(self) == *old(self),
            },
    {
        match self {
            SourceImpl::Table(_) => None,
            SourceImpl::Connector(connector) => Some(connector),
        }
    }

    /// The table, if this is one, or else the source back.
    pub fn into_table(self) -> (result: Result<T, SourceImpl<T, C>>)
        ensures
            result == match self {
                SourceImpl::Table(table) => Ok::<T, SourceImpl<T, C>>(table),
                SourceImpl::Connector(_) => Err(self),
            },
    {
        match self {
            SourceImpl::Table(table) => Ok(table),
            SourceImpl::Connector(connector) => Err(SourceImpl::Connector(connector)),
        }
    }

    /// The connector, if this is one, or else the source back.
    pub fn into_connector(self) -> (result: Result<C, SourceImpl<T, C>>)
        ensures
            result == match self {
                SourceImpl::Table(_) => Err::<C, SourceImpl<T, C>>(self),
                SourceImpl::Connector(connector) => Ok(connector),
            },
    {
        match self {
            SourceImpl::Table(table) => Err(SourceImpl::Table(table)),
            SourceImpl::Connector(connector) => Ok(connector),
        }
    }
}

/// What reads from a table or from a connector: a reader, or what a reader has just read.
#[derive(Debug)]
pub enum SourceStreamReaderImpl<T, C> {
    Table(T),
    Connector(C),
}

impl<E> SourceStreamReaderImpl<Result<StreamChunk, E>, Result<StreamChunkWithState, E>> {
    /// The next chunk, of what the reader of the table or of the connector has just read: a chunk
    /// of a table comes without offsets.
    pub fn next(self) -> (result: Result<StreamChunkWithState, E>)
        ensures
            result == match self {
                SourceStreamReaderImpl::Table(Ok(chunk)) => Ok::<StreamChunkWithState, E>(
                    StreamChunkWithState { chunk, split_offset_mapping: None },
                ),
                SourceStreamReaderImpl::Table(Err(error)) => Err(error),
                SourceStreamReaderImpl::Connector(read) => read,
            },
    {
        match self {
            SourceStreamReaderImpl::Table(read) => match read {
                Ok(chunk) => Ok(StreamChunkWithState::from(chunk)),
                Err(error) => Err(error),
            },
            SourceStreamReaderImpl::Connector(read) => read,
        }
    }
}

}
